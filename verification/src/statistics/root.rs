//! Integer square roots, and coefficients in fixed point.
use crate::statistics::kendall_tau::TauB;
use vstd::prelude::*;

verus! {

/// `r` is the square root of `x`, rounded down.
pub open spec fn is_sqrt_floor(x: int, r: int) -> bool {
    0 <= r && r * r <= x < (r + 1) * (r + 1)
}

/// The square root of `x`, rounded down.
pub open spec fn sqrt_floor(x: int) -> int {
    choose|r: int| is_sqrt_floor(x, r)
}

/// A number has at most one rounded-down square root.
pub proof fn lemma_sqrt_floor_unique(x: int, r: int, s: int)
    requires
        is_sqrt_floor(x, r),
        is_sqrt_floor(x, s),
    ensures
        r == s,
{
    if r < s {
        assert((r + 1) * (r + 1) <= s * s) by (nonlinear_arith)
            requires
                0 <= r,
                r + 1 <= s,
        ;
    } else if s < r {
        assert((s + 1) * (s + 1) <= r * r) by (nonlinear_arith)
            requires
                0 <= s,
                s + 1 <= r,
        ;
    }
}

/// The square root of `x`, rounded down.
pub fn integer_sqrt(x: u128) -> (r: u64)
    ensures
        is_sqrt_floor(x as int, r as int),
        r == sqrt_floor(x as int),
{
    let mut lo: u128 = 0;
    let mut hi: u128 = 0x1_0000_0000_0000_0000;
    assert(0x1_0000_0000_0000_0000 * 0x1_0000_0000_0000_0000 > u128::MAX) by (nonlinear_arith);
    while hi - lo > 1
        invariant
            lo < hi <= 0x1_0000_0000_0000_0000,
            lo * lo <= x,
            x < hi * hi,
        decreases hi - lo,
    {
        let mid: u128 = lo + (hi - lo) / 2;
        assert(mid * mid <= 0xFFFF_FFFF_FFFF_FFFF * 0xFFFF_FFFF_FFFF_FFFF) by (nonlinear_arith)
            requires
                0 <= mid <= 0xFFFF_FFFF_FFFF_FFFF,
        ;
        if mid * mid <= x {
            lo = mid;
        } else {
            hi = mid;
        }
    }
    proof {
        lemma_sqrt_floor_unique(x as int, lo as int, sqrt_floor(x as int));
    }
    lo as u64
}

/// The number of parts that stand for one in a coefficient in fixed point.
pub const TAU_SCALE: u128 = 1_000_000;

/// Ten to the power of `k`.
pub open spec fn ten_to(k: nat) -> int
    decreases k,
{
    if k == 0 {
        1
    } else {
        10 * ten_to((k - 1) as nat)
    }
}

/// A coefficient in millionths, rounded towards zero and kept between minus
/// one and one: the greatest number of millionths whose square, times the
/// product of the two untied masses, is at most the square of the numerator,
/// with the sign of the numerator. An undefined coefficient has none.
pub open spec fn tau_scaled(tau: TauB) -> Option<int> {
    match tau {
        TauB::Undefined => None,
        TauB::Zero => Some(0),
        TauB::Ratio { numerator, untied_a, untied_b } => {
            let under = untied_a * untied_b;
            let size = if numerator * numerator >= under {
                1_000_000
            } else {
                sqrt_floor((numerator * numerator * 1_000_000_000_000) / under)
            };
            if numerator < 0 {
                Some(-size)
            } else {
                Some(size)
            }
        },
    }
}

/// The greatest untied mass of a coefficient whose value in fixed point can
/// be computed: two to the power of 62.
pub const MAX_UNTIED: u128 = 0x4000_0000_0000_0000;

/// The parts of the coefficient are small enough for its value in fixed point
/// to be computed: positive under the root and at most `MAX_UNTIED`, with a
/// numerator of a size of at most `u64::MAX`.
pub open spec fn scalable(tau: TauB) -> bool {
    tau matches TauB::Ratio { numerator, untied_a, untied_b } ==> {
        &&& 0 < untied_a <= MAX_UNTIED
        &&& 0 < untied_b <= MAX_UNTIED
        &&& -(u64::MAX as int) <= numerator <= u64::MAX
    }
}

/// A million million times `a`, divided by `p`, rounded down: by long
/// division, one decimal place at a time.
fn scaled_quotient(a: u128, p: u128) -> (q: u128)
    requires
        a < p,
        p <= 0x1000_0000_0000_0000_0000_0000_0000_0000,
    ensures
        q == (a * 1_000_000_000_000) / (p as int),
        q < 1_000_000_000_000,
{
    let mut q: u128 = 0;
    let mut r: u128 = a;
    let mut k: usize = 0;
    proof {
        reveal_with_fuel(ten_to, 1);
        assert(0 * (p as int) == 0) by (nonlinear_arith);
        assert(a * 1 == a) by (nonlinear_arith);
    }
    while k < 12
        invariant
            k <= 12,
            a < p,
            p <= 0x1000_0000_0000_0000_0000_0000_0000_0000,
            0 <= r < p,
            q * p + r == a * ten_to(k as nat),
            q < ten_to(k as nat),
            ten_to(k as nat) <= 1_000_000_000_000,
        decreases 12 - k,
    {
        let r10: u128 = r * 10;
        let d: u128 = r10 / p;
        let r2: u128 = r10 % p;
        proof {
            let t = ten_to(k as nat);
            let t2 = ten_to((k + 1) as nat);
            assert(t2 == 10 * t);
            vstd::arithmetic::div_mod::lemma_fundamental_div_mod(r10 as int, p as int);
            let q2 = 10 * q + d;
            assert(q2 * p + r2 == a * t2) by (nonlinear_arith)
                requires
                    q2 == 10 * q + d,
                    r10 == r * 10,
                    r10 == p * d + r2,
                    q * p + r == a * t,
                    t2 == 10 * t,
            ;
            assert(q2 < t2) by (nonlinear_arith)
                requires
                    q2 * p + r2 == a * t2,
                    0 <= r2,
                    a < p,
                    0 < p,
                    0 < t2,
                    0 <= q2,
            ;
            lemma_ten_to_grows((k + 1) as nat, 12);
            reveal_with_fuel(ten_to, 13);
        }
        q = 10 * q + d;
        r = r2;
        k += 1;
    }
    proof {
        reveal_with_fuel(ten_to, 13);
        assert(ten_to(12) == 1_000_000_000_000);
        assert(a * 1_000_000_000_000 == q * p + r);
        vstd::arithmetic::div_mod::lemma_fundamental_div_mod_converse(
            a * 1_000_000_000_000,
            p as int,
            q as int,
            r as int,
        );
    }
    q
}

/// The powers of ten grow.
proof fn lemma_ten_to_grows(j: nat, k: nat)
    requires
        j <= k,
    ensures
        0 < ten_to(j) <= ten_to(k),
    decreases k,
{
    if j < k {
        lemma_ten_to_grows(j, (k - 1) as nat);
    } else if k > 0 {
        lemma_ten_to_grows((j - 1) as nat, (k - 1) as nat);
    }
}

/// The coefficient in millionths, rounded towards zero and kept between
/// minus one and one.
pub fn scaled(tau: TauB) -> (res: Option<i128>)
    requires
        scalable(tau),
    ensures
        res.is_some() == tau_scaled(tau).is_some(),
        res matches Some(v) ==> tau_scaled(tau) == Some(v as int),
        res matches Some(v) ==> -1_000_000 <= v <= 1_000_000,
{
    match tau {
        TauB::Undefined => None,
        TauB::Zero => Some(0),
        TauB::Ratio { numerator, untied_a, untied_b } => {
            assert(untied_a * untied_b <= 0x4000_0000_0000_0000 * 0x4000_0000_0000_0000 && 1
                <= untied_a * untied_b) by (nonlinear_arith)
                requires
                    0 < untied_a <= 0x4000_0000_0000_0000,
                    0 < untied_b <= 0x4000_0000_0000_0000,
            ;
            let under: u128 = untied_a * untied_b;
            let magnitude: u128 = if numerator < 0 {
                (-numerator) as u128
            } else {
                numerator as u128
            };
            assert(magnitude * magnitude <= 0xFFFF_FFFF_FFFF_FFFF * 0xFFFF_FFFF_FFFF_FFFF
                && magnitude * magnitude == numerator * numerator) by (nonlinear_arith)
                requires
                    0 <= magnitude <= 0xFFFF_FFFF_FFFF_FFFF,
                    magnitude == numerator || magnitude == -numerator,
            ;
            let square: u128 = magnitude * magnitude;
            let size: u128 = if square >= under {
                // the coefficient is kept at one
                TAU_SCALE
            } else {
                let parts: u128 = scaled_quotient(square, under);
                let root: u64 = integer_sqrt(parts);
                assert(root < 1_000_000) by (nonlinear_arith)
                    requires
                        is_sqrt_floor(parts as int, root as int),
                        parts < 1_000_000_000_000,
                ;
                assert(square * 1_000_000_000_000 == numerator * numerator
                    * 1_000_000_000_000) by (nonlinear_arith)
                    requires
                        square == numerator * numerator,
                ;
                root as u128
            };
            if numerator < 0 {
                Some(-(size as i128))
            } else {
                Some(size as i128)
            }
        },
    }
}

} // verus!
