//! Exact decimal quantities: a signed mantissa together with a decimal scale.
//!
//! Every amount in a ledger is such a quantity; arithmetic on them is exact,
//! and rounding to two decimal places sends halves away from zero.
use vstd::prelude::*;

verus! {

/// Largest mantissa magnitude a well-formed quantity may carry (2^96 - 1),
/// the range of the decimal values the parser produces.
pub const MANTISSA_LIMIT: i128 = 79228162514264337593543950335i128;

/// Largest number of decimal places a well-formed quantity may carry.
pub const SCALE_LIMIT: u32 = 28;

/// An exact decimal quantity, representing `mantissa / 10^scale`.
#[derive(Clone, Copy, PartialEq, Eq, Structural, Debug)]
pub struct Qty {
    pub mantissa: i128,
    pub scale: u32,
}

/// 10 to the power `n`.
pub open spec fn pow10(n: nat) -> int
    decreases n,
{
    if n == 0 {
        1
    } else {
        10 * pow10((n - 1) as nat)
    }
}

pub open spec fn abs_int(x: int) -> int {
    if x < 0 {
        -x
    } else {
        x
    }
}

pub proof fn lemma_pow10_pos(n: nat)
    ensures
        pow10(n) >= 1,
    decreases n,
{
    if n > 0 {
        lemma_pow10_pos((n - 1) as nat);
    }
}

pub proof fn lemma_pow10_adds(a: nat, b: nat)
    ensures
        pow10(a + b) == pow10(a) * pow10(b),
    decreases a,
{
    if a == 0 {
    } else {
        lemma_pow10_adds((a - 1) as nat, b);
        assert(pow10(a + b) == 10 * pow10((a - 1) as nat + b)) by {
            assert(a + b >= 1);
        }
        assert(10 * (pow10((a - 1) as nat) * pow10(b)) == (10 * pow10((a - 1) as nat)) * pow10(
            b,
        )) by (nonlinear_arith);
    }
}

pub proof fn lemma_pow10_le(a: nat, b: nat)
    requires
        a <= b,
    ensures
        pow10(a) <= pow10(b),
    decreases b,
{
    if a < b {
        lemma_pow10_le(a, (b - 1) as nat);
        lemma_pow10_pos((b - 1) as nat);
    }
}

pub proof fn lemma_pow10_38()
    ensures
        pow10(38) == 100000000000000000000000000000000000000,
{
    reveal_with_fuel(pow10, 40);
}

pub proof fn lemma_pow10_39()
    ensures
        pow10(39) == 1000000000000000000000000000000000000000,
{
    reveal_with_fuel(pow10, 41);
}

/// 10 to the power `k`, as a machine integer.
pub fn pow10_exec(k: u32) -> (r: i128)
    requires
        k <= 38,
    ensures
        r == pow10(k as nat),
{
    let mut r: i128 = 1;
    let mut i: u32 = 0;
    while i < k
        invariant
            i <= k,
            k <= 38,
            r == pow10(i as nat),
        decreases k - i,
    {
        proof {
            lemma_pow10_le(i as nat, 37);
            lemma_pow10_38();
            assert(pow10(38nat) == 10 * pow10(37nat));
            lemma_pow10_pos(i as nat);
        }
        r = r * 10;
        i = i + 1;
    }
    r
}

impl Qty {
    /// A quantity the parser can produce: bounded scale, bounded mantissa.
    pub open spec fn wf(self) -> bool {
        &&& self.scale <= SCALE_LIMIT
        &&& -MANTISSA_LIMIT <= self.mantissa <= MANTISSA_LIMIT
    }

    /// The exact value, counted in units of 10^-28.
    pub open spec fn val(self) -> int
        recommends
            self.wf(),
    {
        self.mantissa * pow10((SCALE_LIMIT - self.scale) as nat)
    }

    pub open spec fn spec_zero() -> Qty {
        Qty { mantissa: 0, scale: 0 }
    }

    pub fn zero() -> (r: Qty)
        ensures
            r == Qty::spec_zero(),
    {
        Qty { mantissa: 0, scale: 0 }
    }
}

/// The exact sum of two quantities at the larger of the two scales, or `None`
/// where that sum's mantissa leaves the well-formed range.
pub open spec fn spec_add(a: Qty, b: Qty) -> Option<Qty>
    recommends
        a.wf(),
        b.wf(),
{
    let t = if a.scale >= b.scale {
        a.scale
    } else {
        b.scale
    };
    let am = a.mantissa * pow10((t - a.scale) as nat);
    let bm = b.mantissa * pow10((t - b.scale) as nat);
    let m = am + bm;
    if -MANTISSA_LIMIT <= m <= MANTISSA_LIMIT {
        Some(Qty { mantissa: m as i128, scale: t })
    } else {
        None
    }
}

pub proof fn lemma_val_at_scale(q: Qty, t: u32)
    requires
        q.wf(),
        q.scale <= t <= SCALE_LIMIT,
    ensures
        q.mantissa * pow10((t - q.scale) as nat) * pow10((SCALE_LIMIT - t) as nat) == q.val(),
{
    lemma_pow10_adds((t - q.scale) as nat, (SCALE_LIMIT - t) as nat);
    assert(q.mantissa * pow10((t - q.scale) as nat) * pow10((SCALE_LIMIT - t) as nat)
        == q.mantissa * (pow10((t - q.scale) as nat) * pow10((SCALE_LIMIT - t) as nat)))
        by (nonlinear_arith);
}

/// The sum preserves the exact value.
pub proof fn lemma_spec_add_val(a: Qty, b: Qty)
    requires
        a.wf(),
        b.wf(),
        spec_add(a, b) is Some,
    ensures
        spec_add(a, b)->Some_0.wf(),
        spec_add(a, b)->Some_0.val() == a.val() + b.val(),
{
    let t = if a.scale >= b.scale {
        a.scale
    } else {
        b.scale
    };
    let am = a.mantissa * pow10((t - a.scale) as nat);
    let bm = b.mantissa * pow10((t - b.scale) as nat);
    let q = spec_add(a, b)->Some_0;
    lemma_val_at_scale(a, t);
    lemma_val_at_scale(b, t);
    assert((am + bm) * pow10((SCALE_LIMIT - t) as nat) == am * pow10((SCALE_LIMIT - t) as nat)
        + bm * pow10((SCALE_LIMIT - t) as nat)) by (nonlinear_arith);
}

impl Qty {
    /// Exact addition; `None` where the sum cannot be carried at the common
    /// scale.
    pub fn checked_add(self, other: Qty) -> (r: Option<Qty>)
        requires
            self.wf(),
            other.wf(),
        ensures
            r == spec_add(self, other),
            r matches Some(q) ==> q.wf() && q.val() == self.val() + other.val(),
    {
        let t = if self.scale >= other.scale {
            self.scale
        } else {
            other.scale
        };
        proof {
            lemma_pow10_pos((t - self.scale) as nat);
            lemma_pow10_pos((t - other.scale) as nat);
        }
        let fa = pow10_exec(t - self.scale);
        let fb = pow10_exec(t - other.scale);
        let am_opt = self.mantissa.checked_mul(fa);
        let bm_opt = other.mantissa.checked_mul(fb);
        let r = match (am_opt, bm_opt) {
            (Some(am), Some(bm)) => {
                match am.checked_add(bm) {
                    Some(m) => {
                        if -MANTISSA_LIMIT <= m && m <= MANTISSA_LIMIT {
                            Some(Qty { mantissa: m, scale: t })
                        } else {
                            None
                        }
                    },
                    None => {
                        proof {
                            lemma_add_overflow_means_none(self, other, t);
                        }
                        None
                    },
                }
            },
            _ => {
                proof {
                    lemma_add_overflow_means_none(self, other, t);
                }
                None
            },
        };
        proof {
            if r is Some {
                lemma_spec_add_val(self, other);
            }
        }
        r
    }
}

/// `x / 10^k`, rounded to the nearest integer with halves away from zero.
pub open spec fn div_round_half_away(x: int, k: nat) -> int {
    let d = pow10(k);
    let q = abs_int(x) / d;
    let r = abs_int(x) % d;
    let q2 = if 2 * r >= d {
        q + 1
    } else {
        q
    };
    if x < 0 {
        -q2
    } else {
        q2
    }
}

pub proof fn lemma_div_round_bound(x: int, k: nat)
    requires
        k >= 1,
    ensures
        abs_int(div_round_half_away(x, k)) <= abs_int(x),
{
    let d = pow10(k);
    lemma_pow10_le(1, k);
    assert(pow10(1nat) == 10 * pow10(0nat));
    let q = abs_int(x) / d;
    let r = abs_int(x) % d;
    assert(d * q + r == abs_int(x) && 0 <= r < d) by {
        vstd::arithmetic::div_mod::lemma_fundamental_div_mod(abs_int(x), d);
    }
    if 2 * r >= d {
        assert(q + 1 <= d * q + r) by (nonlinear_arith)
            requires
                d >= 10,
                q >= 0,
                2 * r >= d,
                0 <= r < d,
        ;
    } else {
        assert(q <= d * q + r) by (nonlinear_arith)
            requires
                d >= 10,
                q >= 0,
                r >= 0,
        ;
    }
}

/// The rounding law: at an exact midpoint the result moves away from zero —
/// its magnitude is the truncated quotient plus one, never the nearer even
/// digit — and the sign is kept.
pub proof fn lemma_midpoint_rounds_away(x: int, k: nat)
    requires
        k >= 1,
        abs_int(x) % pow10(k) * 2 == pow10(k),
    ensures
        abs_int(div_round_half_away(x, k)) == abs_int(x) / pow10(k) + 1,
        x > 0 ==> div_round_half_away(x, k) > 0,
        x < 0 ==> div_round_half_away(x, k) < 0,
{
    let d = pow10(k);
    lemma_pow10_pos(k);
    let q = abs_int(x) / d;
    let r = abs_int(x) % d;
    assert(d * q + r == abs_int(x) && 0 <= r < d) by {
        vstd::arithmetic::div_mod::lemma_fundamental_div_mod(abs_int(x), d);
    }
    assert(2 * r == d);
    assert(q >= 0) by (nonlinear_arith)
        requires
            d >= 1,
            d * q + r >= 0,
            0 <= r < d,
    ;
}

/// The quantity rounded to two decimal places, halves away from zero; a
/// quantity already at two or fewer places is returned unchanged.
pub open spec fn spec_round_to_2(q: Qty) -> Qty
    recommends
        q.wf(),
{
    if q.scale <= 2 {
        q
    } else {
        Qty { mantissa: div_round_half_away(q.mantissa as int, (q.scale - 2) as nat) as i128, scale: 2 }
    }
}

impl Qty {
    /// Round to two decimal places, halves away from zero.
    pub fn round_to_2(self) -> (r: Qty)
        requires
            self.wf(),
        ensures
            r == spec_round_to_2(self),
            r.wf(),
            self.scale > 2 ==> r.scale == 2,
    {
        if self.scale <= 2 {
            self
        } else {
            let k = self.scale - 2;
            let d = pow10_exec(k);
            proof {
                lemma_pow10_le(1, k as nat);
                assert(pow10(1nat) == 10 * pow10(0nat));
                lemma_pow10_le(k as nat, 26);
                lemma_pow10_le(26, 38);
                lemma_pow10_38();
            }
            let neg = self.mantissa < 0;
            let ua = (if neg {
                -self.mantissa
            } else {
                self.mantissa
            }) as u128;
            let ud = d as u128;
            let uq = ua / ud;
            let ur = ua % ud;
            let uq2 = if 2 * ur >= ud {
                uq + 1
            } else {
                uq
            };
            proof {
                lemma_div_round_bound(self.mantissa as int, k as nat);
            }
            let m = if neg {
                -(uq2 as i128)
            } else {
                uq2 as i128
            };
            Qty { mantissa: m, scale: 2 }
        }
    }
}

/// The exact product of two quantities, rounded to two decimal places where
/// its scale exceeds two; `None` where an intermediate or the result cannot be
/// carried.
pub open spec fn spec_mul_round_to_2(a: Qty, b: Qty) -> Option<Qty>
    recommends
        a.wf(),
        b.wf(),
{
    let p = a.mantissa * b.mantissa;
    let s = a.scale + b.scale;
    if !(-i128::MAX <= p <= i128::MAX) {
        None
    } else if s <= 2 {
        if abs_int(p) <= MANTISSA_LIMIT {
            Some(Qty { mantissa: p as i128, scale: s as u32 })
        } else {
            None
        }
    } else {
        let m = div_round_half_away(p, (s - 2) as nat);
        if abs_int(m) <= MANTISSA_LIMIT {
            Some(Qty { mantissa: m as i128, scale: 2 })
        } else {
            None
        }
    }
}

impl Qty {
    /// Exact multiplication followed by rounding to two decimal places.
    pub fn mul_round_to_2(self, other: Qty) -> (r: Option<Qty>)
        requires
            self.wf(),
            other.wf(),
        ensures
            r == spec_mul_round_to_2(self, other),
            r matches Some(q) ==> q.wf(),
    {
        let p_opt = self.mantissa.checked_mul(other.mantissa);
        match p_opt {
            None => None,
            Some(p) => {
                if p == i128::MIN {
                    return None;
                }
                let s = self.scale + other.scale;
                if s <= 2 {
                    if -MANTISSA_LIMIT <= p && p <= MANTISSA_LIMIT {
                        Some(Qty { mantissa: p, scale: s })
                    } else {
                        None
                    }
                } else {
                    let k = s - 2;
                    let neg = p < 0;
                    let ua = (if neg {
                        -p
                    } else {
                        p
                    }) as u128;
                    if k > 38 {
                        proof {
                            lemma_pow10_le(39, k as nat);
                            lemma_pow10_39();
                            lemma_round_huge_divisor_is_zero(p as int, k as nat);
                        }
                        Some(Qty { mantissa: 0, scale: 2 })
                    } else {
                        let d = pow10_exec(k);
                        proof {
                            lemma_pow10_le(1, k as nat);
                            assert(pow10(1nat) == 10 * pow10(0nat));
                            lemma_div_round_bound(p as int, k as nat);
                        }
                        let ud = d as u128;
                        let uq = ua / ud;
                        let ur = ua % ud;
                        let uq2 = if 2 * ur >= ud {
                            uq + 1
                        } else {
                            uq
                        };
                        if uq2 <= MANTISSA_LIMIT as u128 {
                            let m = if neg {
                                -(uq2 as i128)
                            } else {
                                uq2 as i128
                            };
                            Some(Qty { mantissa: m, scale: 2 })
                        } else {
                            None
                        }
                    }
                }
            },
        }
    }
}

/// Rounding to two places keeps a quantity well-formed.
pub proof fn lemma_spec_round_to_2_wf(q: Qty)
    requires
        q.wf(),
    ensures
        spec_round_to_2(q).wf(),
{
    if q.scale > 2 {
        lemma_div_round_bound(q.mantissa as int, (q.scale - 2) as nat);
    }
}

/// A successful multiply-and-round yields a well-formed quantity.
pub proof fn lemma_spec_mul_round_to_2_wf(a: Qty, b: Qty)
    requires
        a.wf(),
        b.wf(),
        spec_mul_round_to_2(a, b) is Some,
    ensures
        spec_mul_round_to_2(a, b)->Some_0.wf(),
{
}

/// Rounding by a divisor of more than twice the magnitude yields zero.
proof fn lemma_round_huge_divisor_is_zero(x: int, k: nat)
    requires
        2 * abs_int(x) < pow10(k),
    ensures
        div_round_half_away(x, k) == 0,
{
    let d = pow10(k);
    lemma_pow10_pos(k);
    assert(abs_int(x) / d == 0 && abs_int(x) % d == abs_int(x)) by {
        vstd::arithmetic::div_mod::lemma_basic_div(abs_int(x), d);
        vstd::arithmetic::div_mod::lemma_small_mod(abs_int(x) as nat, d as nat);
    }
}

/// When rescaling or adding the mantissas leaves the i128 range, the exact sum
/// also leaves the well-formed range, so `spec_add` is `None` as well.
proof fn lemma_add_overflow_means_none(a: Qty, b: Qty, t: u32)
    requires
        a.wf(),
        b.wf(),
        t == if a.scale >= b.scale {
            a.scale
        } else {
            b.scale
        },
        abs_int(a.mantissa * pow10((t - a.scale) as nat)) > i128::MAX || abs_int(
            b.mantissa * pow10((t - b.scale) as nat),
        ) > i128::MAX || abs_int(
            a.mantissa * pow10((t - a.scale) as nat) + b.mantissa * pow10((t - b.scale) as nat),
        ) > i128::MAX,
    ensures
        spec_add(a, b) is None,
{
    let am = a.mantissa * pow10((t - a.scale) as nat);
    let bm = b.mantissa * pow10((t - b.scale) as nat);
    // the operand already at scale t is unscaled, so at most one of the two
    // mantissas is enlarged, and the other is bounded by the mantissa limit
    if a.scale >= b.scale {
        assert(am == a.mantissa * 1);
        assert(abs_int(am) <= MANTISSA_LIMIT);
    } else {
        assert(bm == b.mantissa * 1);
        assert(abs_int(bm) <= MANTISSA_LIMIT);
    }
    if abs_int(am) > i128::MAX {
        assert(abs_int(am + bm) >= abs_int(am) - abs_int(bm));
    } else if abs_int(bm) > i128::MAX {
        assert(abs_int(am + bm) >= abs_int(bm) - abs_int(am));
    }
    assert(abs_int(am + bm) > MANTISSA_LIMIT);
}

} // verus!
