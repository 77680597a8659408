//! Filter sizing arithmetic.
//!
//! The classic formulas for a membership filter of capacity `n` and target
//! false-positive rate `p` are `m = ceil(-n * ln(p) / ln(2)^2)` bits and
//! `k = round((m / n) * ln(2))` hash functions. The rate is given as a
//! fraction `num / den`, and the natural logarithm is computed here in
//! fixed-point integer arithmetic: `ln(1/p) = log2(den/num) * ln(2)`, with
//! the base-two logarithm carrying 32 fractional bits, so the computed bit
//! count can differ from the real-valued formula only where that formula
//! lands within a few billionths of an integer.

use vstd::arithmetic::div_mod::lemma_div_is_ordered;
use vstd::arithmetic::div_mod::lemma_div_multiples_vanish;
use vstd::arithmetic::div_mod::lemma_multiply_divide_lt;
use vstd::arithmetic::power2::lemma2_to64;
use vstd::arithmetic::power2::lemma2_to64_rest;
use vstd::arithmetic::power2::lemma_pow2_adds;
use vstd::arithmetic::power2::lemma_pow2_pos;
use vstd::arithmetic::power2::lemma_pow2_strictly_increases;
use vstd::arithmetic::power2::pow2;
use vstd::prelude::*;

verus! {

/// `ln 2`, scaled by `10^18` and truncated.
pub const LN2_SCALED: u64 = 693147180559945309;

/// `1 / ln 2`, scaled by `10^18` and truncated.
pub const INV_LN2_SCALED: u64 = 1442695040888963407;

/// The decimal fixed-point scale of the two constants above.
pub const FIXED_SCALE: u64 = 1000000000000000000;

/// `floor(log2(den / cur)) + e`, by repeated doubling.
pub open spec fn spec_ratio_exp(den: int, cur: int, e: nat) -> nat
    decreases den - cur,
    when 1 <= cur <= den
{
    if 2 * cur <= den {
        spec_ratio_exp(den, 2 * cur, e + 1)
    } else {
        e
    }
}

/// The first `n` fractional bits of `log2(r / 2^62)`, for `r` in
/// `[2^62, 2^63)`: repeated squaring, one bit per step.
pub open spec fn spec_frac_bits(r: int, n: nat) -> nat
    decreases n,
{
    if n == 0 {
        0
    } else {
        let s = (r * r) / (pow2(62) as int);
        if s >= pow2(63) {
            pow2((n - 1) as nat) + spec_frac_bits(s / 2, (n - 1) as nat)
        } else {
            spec_frac_bits(s, (n - 1) as nat)
        }
    }
}

/// `log2(den / num)` in fixed point with 32 fractional bits, truncated.
pub open spec fn spec_log2_scaled(num: int, den: int) -> int
    recommends
        1 <= num <= den,
{
    let e = spec_ratio_exp(den, num, 0);
    let r0 = (den * pow2(62)) / (num * pow2(e));
    (e * pow2(32) + spec_frac_bits(r0, 32)) as int
}

/// The bit count for capacity `n` and rate `num / den`:
/// `max(1, ceil(n * log2(den/num) / ln 2))`, in the fixed point above.
pub open spec fn spec_num_bits(n: int, num: int, den: int) -> int
    recommends
        n >= 1,
        1 <= num < den,
{
    let l = spec_log2_scaled(num, den);
    let t = (l * INV_LN2_SCALED) / (FIXED_SCALE as int);
    let raw = (n * t + pow2(32) - 1) / (pow2(32) as int);
    if raw < 1 {
        1
    } else {
        raw
    }
}

/// The hash-function count for `m` bits and capacity `n`:
/// `max(1, round(m * ln 2 / n))`.
pub open spec fn spec_num_hashes(m: int, n: int) -> int
    recommends
        m >= 1,
        n >= 1,
{
    let q = (2 * m * LN2_SCALED + n * FIXED_SCALE) / (2 * n * (FIXED_SCALE as int));
    if q < 1 {
        1
    } else {
        q
    }
}

/// What the doubling loop returns: the unique exponent with
/// `cur * 2^(r - e) <= den < 2 * cur * 2^(r - e)`.
proof fn lemma_ratio_exp_bounds(den: int, cur: int, e: nat)
    requires
        1 <= cur <= den,
    ensures
        ({
            let r = spec_ratio_exp(den, cur, e);
            &&& r >= e
            &&& cur * pow2((r - e) as nat) <= den
            &&& 2 * (cur * pow2((r - e) as nat)) > den
        }),
    decreases den - cur,
{
    let r = spec_ratio_exp(den, cur, e);
    if 2 * cur <= den {
        lemma_ratio_exp_bounds(den, 2 * cur, e + 1);
        let w = (r - (e + 1)) as nat;
        lemma_pow2_adds(w, 1);
        lemma2_to64();
        assert((r - e) as nat == w + 1);
        assert(pow2((r - e) as nat) == pow2(w) * 2);
        assert(cur * (pow2(w) * 2) == (2 * cur) * pow2(w)) by (nonlinear_arith);
        assert(cur * pow2((r - e) as nat) == (2 * cur) * pow2(w));
        assert(cur * pow2((r - e) as nat) <= den);
        assert(2 * (cur * pow2((r - e) as nat)) > den);
    } else {
        lemma2_to64();
        assert(r == e);
        assert(pow2((r - e) as nat) == 1);
        assert(cur * pow2((r - e) as nat) == cur) by (nonlinear_arith)
            requires
                pow2((r - e) as nat) == 1,
        ;
    }
}

/// The fractional bits always fit in `n` bits.
proof fn lemma_frac_bits_bound(r: int, n: nat)
    ensures
        spec_frac_bits(r, n) < pow2(n),
    decreases n,
{
    lemma_pow2_pos(n);
    if n != 0 {
        let s = (r * r) / (pow2(62) as int);
        lemma_pow2_adds(1, (n - 1) as nat);
        lemma2_to64();
        if s >= pow2(63) {
            lemma_frac_bits_bound(s / 2, (n - 1) as nat);
        } else {
            lemma_frac_bits_bound(s, (n - 1) as nat);
        }
    }
}

/// The scaled base-two logarithm of a 64-bit ratio fits under `64 * 2^32`.
proof fn lemma_log2_scaled_bound(num: int, den: int)
    requires
        1 <= num <= den,
        den < pow2(64),
    ensures
        0 <= spec_log2_scaled(num, den) < 64 * pow2(32),
{
    let e = spec_ratio_exp(den, num, 0);
    lemma_ratio_exp_bounds(den, num, 0);
    lemma_pow2_pos(e);
    assert(pow2(e) <= num * pow2(e)) by (nonlinear_arith)
        requires
            num >= 1,
            pow2(e) >= 1,
    ;
    if e >= 64 {
        if e > 64 {
            lemma_pow2_strictly_increases(64, e);
        }
        assert(false);
    }
    let r0 = (den * pow2(62)) / (num * pow2(e));
    lemma_frac_bits_bound(r0, 32);
    assert(e * pow2(32) <= 63 * pow2(32)) by (nonlinear_arith)
        requires
            e <= 63,
    ;
    assert(spec_frac_bits(r0, 32) >= 0);
    assert(den * pow2(62) >= 0) by (nonlinear_arith)
        requires
            den >= 0,
            pow2(62) >= 0,
    ;
    assert(num * pow2(e) > 0) by (nonlinear_arith)
        requires
            num >= 1,
            pow2(e) >= 1,
    ;
    vstd::arithmetic::div_mod::lemma_div_pos_is_pos(den * pow2(62), num * pow2(e));
}

/// The computed bit count never explodes: it stays under `93 * n + 1`.
pub proof fn lemma_num_bits_small(n: int, num: int, den: int)
    requires
        n >= 1,
        1 <= num < den,
        den < pow2(64),
    ensures
        1 <= spec_num_bits(n, num, den) <= 93 * n + 1,
{
    let l = spec_log2_scaled(num, den);
    lemma_log2_scaled_bound(num, den);
    let t = (l * INV_LN2_SCALED) / (FIXED_SCALE as int);
    assert(l * INV_LN2_SCALED >= 0) by (nonlinear_arith)
        requires
            l >= 0,
            INV_LN2_SCALED >= 0,
    ;
    vstd::arithmetic::div_mod::lemma_div_pos_is_pos(l * INV_LN2_SCALED, FIXED_SCALE as int);
    assert(l * INV_LN2_SCALED < (64 * pow2(32)) * INV_LN2_SCALED) by (nonlinear_arith)
        requires
            0 <= l < 64 * pow2(32),
            INV_LN2_SCALED > 0,
    ;
    lemma2_to64_rest();
    assert(64 * (INV_LN2_SCALED as int) < 93 * (FIXED_SCALE as int));
    assert((64 * pow2(32)) * INV_LN2_SCALED < 93 * pow2(32) * FIXED_SCALE) by (nonlinear_arith)
        requires
            64 * (INV_LN2_SCALED as int) < 93 * (FIXED_SCALE as int),
            pow2(32) >= 1,
    ;
    assert(l * INV_LN2_SCALED < (FIXED_SCALE as int) * (93 * (pow2(32) as int))) by (nonlinear_arith)
        requires
            l * INV_LN2_SCALED < 93 * pow2(32) * FIXED_SCALE,
    ;
    lemma_multiply_divide_lt(l * INV_LN2_SCALED, FIXED_SCALE as int, 93 * (pow2(32) as int));
    assert(t < 93 * pow2(32));
    let raw = (n * t + pow2(32) - 1) / (pow2(32) as int);
    lemma_pow2_pos(32);
    assert(n * t >= 0) by (nonlinear_arith)
        requires
            n >= 0,
            t >= 0,
    ;
    vstd::arithmetic::div_mod::lemma_div_pos_is_pos(n * t + pow2(32) - 1, pow2(32) as int);
    assert(n * t + pow2(32) - 1 < (pow2(32) as int) * (93 * n + 1)) by (nonlinear_arith)
        requires
            t < 93 * pow2(32),
            n >= 1,
            pow2(32) >= 1,
    ;
    lemma_multiply_divide_lt(n * t + pow2(32) - 1, pow2(32) as int, 93 * n + 1);
    assert(raw <= 93 * n);
}

/// `log2(den / num)` in fixed point with 32 fractional bits, truncated.
pub fn log2_scaled(num: u64, den: u64) -> (l: u64)
    requires
        1 <= num,
        num <= den,
    ensures
        l as int == spec_log2_scaled(num as int, den as int),
        (l as int) < 64 * pow2(32),
{
    proof {
        lemma2_to64();
        lemma2_to64_rest();
    }
    let den128 = den as u128;
    let mut cur: u128 = num as u128;
    let mut e: u32 = 0;
    while 2 * cur <= den128
        invariant
            1 <= cur <= den128,
            den128 == den as u128,
            num >= 1,
            e <= 63,
            cur as int == (num as int) * pow2(e as nat),
            spec_ratio_exp(den as int, num as int, 0) == spec_ratio_exp(
                den as int,
                cur as int,
                e as nat,
            ),
        decreases den128 - cur,
    {
        proof {
            lemma_pow2_adds(e as nat, 1);
            lemma2_to64();
            lemma2_to64_rest();
            assert(2 * ((num as int) * pow2(e as nat)) == (num as int) * pow2(e as nat + 1))
                by (nonlinear_arith)
                requires
                    pow2(e as nat + 1) == pow2(e as nat) * pow2(1),
                    pow2(1) == 2,
            ;
            assert(pow2(e as nat + 1) <= 2 * (cur as int)) by (nonlinear_arith)
                requires
                    pow2(e as nat + 1) == 2 * pow2(e as nat),
                    (cur as int) == (num as int) * pow2(e as nat),
                    num >= 1,
                    pow2(e as nat) >= 0,
            ;
            if e + 1 >= 64 {
                if e + 1 > 64 {
                    lemma_pow2_strictly_increases(64, (e + 1) as nat);
                }
                assert(2 * (cur as int) <= den as int);
                assert((den as int) < pow2(64));
                assert(false);
            }
        }
        cur = 2 * cur;
        e = e + 1;
    }
    let ghost ee = spec_ratio_exp(den as int, num as int, 0);
    proof {
        assert(ee == e as nat);
        lemma_pow2_pos(e as nat);
        if e >= 64 {
            assert(pow2(e as nat) <= num as int * pow2(e as nat)) by (nonlinear_arith)
                requires
                    num >= 1,
                    pow2(e as nat) >= 1,
            ;
            if e > 64 {
                lemma_pow2_strictly_increases(64, e as nat);
            }
            assert(false);
        }
    }
    // The mantissa `den / (num * 2^e)` lies in [1, 2); in fixed point with
    // 62 fractional bits it lies in [2^62, 2^63).
    let r0: u128 = (den128 * 0x4000000000000000) / cur;
    proof {
        let c = cur as int;
        assert((den128 * 0x4000000000000000) as int == (den as int) * pow2(62)) by {
            lemma2_to64();
        }
        lemma_div_multiples_vanish(pow2(62) as int, c);
        assert(c * pow2(62) <= (den as int) * pow2(62)) by (nonlinear_arith)
            requires
                c <= den as int,
                pow2(62) >= 0,
        ;
        lemma_div_is_ordered(c * pow2(62), (den as int) * pow2(62), c);
        assert((den as int) * pow2(62) < c * (2 * (pow2(62) as int))) by (nonlinear_arith)
            requires
                (den as int) < 2 * c,
                pow2(62) >= 1,
        ;
        lemma_multiply_divide_lt((den as int) * pow2(62), c, 2 * (pow2(62) as int));
        assert(pow2(62) <= r0 < 2 * pow2(62));
        assert(2 * pow2(62) == pow2(63)) by {
            lemma_pow2_adds(62, 1);
            lemma2_to64();
        }
    }
    let ghost fr0 = r0 as int;
    let mut r: u128 = r0;
    let mut acc: u64 = 0;
    let mut i: usize = 0;
    while i < 32
        invariant
            i <= 32,
            pow2(62) <= (r as int) < pow2(63),
            (acc as int) < pow2(i as nat),
            spec_frac_bits(fr0, 32) == acc as nat * pow2((32 - i) as nat) + spec_frac_bits(
                r as int,
                (32 - i) as nat,
            ),
        decreases 32 - i,
    {
        proof {
            lemma2_to64();
            lemma2_to64_rest();
            assert((r as int) * (r as int) < pow2(63) * pow2(63)) by (nonlinear_arith)
                requires
                    0 <= (r as int) < pow2(63),
            ;
            lemma_pow2_adds(63, 63);
            assert(pow2(62) * pow2(62) <= r as int * r as int) by (nonlinear_arith)
                requires
                    pow2(62) <= r as int,
            ;
            lemma_pow2_adds(62, 62);
        }
        let sq: u128 = r * r;
        let s: u128 = sq / 0x4000000000000000;
        proof {
            let rr = r as int * r as int;
            assert(s as int == rr / (pow2(62) as int)) by {
                lemma2_to64();
            }
            lemma_pow2_pos(62);
            lemma_div_multiples_vanish(pow2(62) as int, pow2(62) as int);
            lemma_div_is_ordered((pow2(62) * pow2(62)) as int, rr, pow2(62) as int);
            assert((pow2(124) as int) / (pow2(62) as int) == pow2(62)) by {
                lemma_pow2_adds(62, 62);
                lemma_div_multiples_vanish(pow2(62) as int, pow2(62) as int);
            }
            assert(rr < pow2(62) * pow2(64)) by {
                lemma_pow2_adds(63, 63);
                lemma_pow2_adds(62, 64);
            }
            lemma_multiply_divide_lt(rr, pow2(62) as int, pow2(64) as int);
            assert(pow2(62) <= (s as int) < pow2(64));
        }
        let ghost n_rem = (32 - i) as nat;
        let ghost racc0 = acc;
        let ghost rr0 = r as int;
        if s >= 0x8000000000000000 {
            acc = 2 * acc + 1;
            r = s / 2;
            proof {
                assert(pow2(62) <= (r as int) < pow2(63)) by {
                    lemma_pow2_adds(62, 1);
                    lemma_pow2_adds(63, 1);
                    lemma2_to64();
                }
            }
        } else {
            acc = 2 * acc;
            r = s;
        }
        i = i + 1;
        proof {
            lemma_pow2_adds((i - 1) as nat, 1);
            lemma2_to64();
            let w = (32 - i) as nat;
            assert(spec_frac_bits(rr0, n_rem) == (if rr0 * rr0 / (pow2(62) as int) >= pow2(63) {
                pow2(w) + spec_frac_bits(r as int, w)
            } else {
                spec_frac_bits(r as int, w)
            }));
            assert(acc as nat * pow2(w) == (if rr0 * rr0 / (pow2(62) as int) >= pow2(63) {
                racc0 as nat * (2 * pow2(w)) + pow2(w)
            } else {
                racc0 as nat * (2 * pow2(w))
            })) by (nonlinear_arith)
                requires
                    acc as nat == (if rr0 * rr0 / (pow2(62) as int) >= pow2(63) {
                        2 * racc0 as nat + 1
                    } else {
                        2 * racc0 as nat
                    }),
                    pow2(w) >= 0,
            ;
            assert(racc0 as nat * (2 * pow2(w)) == racc0 as nat * pow2(n_rem)) by (nonlinear_arith)
                requires
                    2 * pow2(w) == pow2(n_rem),
            ;
            assert(pow2(n_rem) == 2 * pow2(w)) by {
                lemma_pow2_adds(w, 1);
            }
        }
    }
    proof {
        assert(spec_frac_bits(fr0, 32) == acc as nat) by {
            lemma2_to64();
            assert(pow2(0) == 1);
            assert(acc as nat * pow2(0) == acc as nat) by (nonlinear_arith)
                requires
                    pow2(0) == 1,
            ;
        }
        lemma_frac_bits_bound(fr0, 32);
        assert((e as int) * pow2(32) <= 63 * pow2(32)) by (nonlinear_arith)
            requires
                (e as int) <= 63,
                pow2(32) >= 0,
        ;
    }
    (e as u64) * 4294967296 + acc
}

/// The bit count for a filter of capacity `capacity` and false-positive
/// rate `rate_num / rate_den`, or nothing where it cannot fit in memory.
pub fn compute_num_bits(capacity: usize, rate_num: u64, rate_den: u64) -> (r: Option<usize>)
    requires
        capacity >= 1,
        1 <= rate_num,
        rate_num < rate_den,
    ensures
        match r {
            Some(m) => {
                &&& m as int == spec_num_bits(capacity as int, rate_num as int, rate_den as int)
                &&& m >= 1
            },
            None => spec_num_bits(capacity as int, rate_num as int, rate_den as int)
                > usize::MAX,
        },
{
    proof {
        lemma2_to64();
        lemma2_to64_rest();
    }
    let l = log2_scaled(rate_num, rate_den);
    proof {
        assert((l as int) * (INV_LN2_SCALED as int) < pow2(38) * pow2(61)) by (nonlinear_arith)
            requires
                0 <= (l as int) < pow2(38),
                0 <= (INV_LN2_SCALED as int) < pow2(61),
        ;
        lemma_pow2_adds(38, 61);
        lemma_pow2_strictly_increases(99, 128);
        assert(64 * pow2(32) <= pow2(38)) by {
            lemma_pow2_adds(6, 32);
            assert(64 * pow2(32) == pow2(6) * pow2(32));
        }
        assert((INV_LN2_SCALED as int) < pow2(61));
    }
    let t: u128 = ((l as u128) * (INV_LN2_SCALED as u128)) / (FIXED_SCALE as u128);
    proof {
        let li = l as int;
        assert(li * INV_LN2_SCALED < (64 * pow2(32)) * INV_LN2_SCALED) by (nonlinear_arith)
            requires
                0 <= li < 64 * pow2(32),
                INV_LN2_SCALED > 0,
        ;
        assert(64 * (INV_LN2_SCALED as int) < 93 * (FIXED_SCALE as int));
        assert((64 * pow2(32)) * INV_LN2_SCALED < 93 * pow2(32) * FIXED_SCALE) by (nonlinear_arith)
            requires
                64 * (INV_LN2_SCALED as int) < 93 * (FIXED_SCALE as int),
                pow2(32) >= 1,
        ;
        assert(li * INV_LN2_SCALED < (FIXED_SCALE as int) * (93 * (pow2(32) as int)))
            by (nonlinear_arith)
            requires
                li * INV_LN2_SCALED < 93 * pow2(32) * FIXED_SCALE,
        ;
        lemma_multiply_divide_lt(li * INV_LN2_SCALED, FIXED_SCALE as int, 93 * (pow2(32) as int));
        assert((t as int) < 93 * pow2(32));
        assert((capacity as int) * (t as int) < pow2(64) * (93 * pow2(32))) by (nonlinear_arith)
            requires
                0 <= (capacity as int) < pow2(64),
                0 <= (t as int) < 93 * pow2(32),
        ;
        assert(pow2(64) * (93 * pow2(32)) < pow2(64) * (pow2(7) * pow2(32))) by (nonlinear_arith)
            requires
                93 < pow2(7),
                pow2(64) >= 1,
                pow2(32) >= 1,
        ;
        lemma_pow2_adds(7, 32);
        lemma_pow2_adds(64, 39);
        lemma_pow2_strictly_increases(103, 128);
    }
    let raw: u128 = ((capacity as u128) * t + 0xFFFFFFFF) / 0x100000000;
    let m: u128 = if raw < 1 {
        1
    } else {
        raw
    };
    proof {
        assert(raw as int == ((capacity as int) * (t as int) + pow2(32) - 1) / (pow2(32) as int));
    }
    if m <= (usize::MAX as u128) {
        Some(m as usize)
    } else {
        None
    }
}

/// The hash-function count for `num_bits` bits and capacity `capacity`:
/// at least one, and never more than the bit count.
pub fn compute_num_hashes(num_bits: usize, capacity: usize) -> (k: usize)
    requires
        num_bits >= 1,
        capacity >= 1,
    ensures
        k as int == spec_num_hashes(num_bits as int, capacity as int),
        1 <= k,
{
    proof {
        lemma2_to64();
        lemma2_to64_rest();
    }
    let nb = num_bits as u128;
    let cap = capacity as u128;
    proof {
        let nbi = nb as int;
        let capi = cap as int;
        assert(2 * nbi * LN2_SCALED < 2 * pow2(64) * pow2(60)) by (nonlinear_arith)
            requires
                0 <= nbi < pow2(64),
                0 <= (LN2_SCALED as int) < pow2(60),
        ;
        assert(capi * FIXED_SCALE < pow2(64) * pow2(60)) by (nonlinear_arith)
            requires
                0 <= capi < pow2(64),
                0 <= (FIXED_SCALE as int) < pow2(60),
        ;
        lemma_pow2_adds(64, 60);
        lemma_pow2_adds(124, 2);
        lemma_pow2_strictly_increases(126, 128);
        assert(2 * capi * FIXED_SCALE > 0) by (nonlinear_arith)
            requires
                capi >= 1,
                (FIXED_SCALE as int) >= 1,
        ;
    }
    let q: u128 = (2 * nb * (LN2_SCALED as u128) + cap * (FIXED_SCALE as u128)) / (2 * cap
        * (FIXED_SCALE as u128));
    proof {
        let nbi = nb as int;
        let capi = cap as int;
        assert(2 * nbi * LN2_SCALED + capi * FIXED_SCALE < (2 * capi * (FIXED_SCALE as int)) * (nbi
            + 1)) by (nonlinear_arith)
            requires
                nbi >= 1,
                capi >= 1,
                0 < (LN2_SCALED as int) < (FIXED_SCALE as int),
        ;
        lemma_multiply_divide_lt(
            2 * nbi * LN2_SCALED + capi * FIXED_SCALE,
            2 * capi * (FIXED_SCALE as int),
            nbi + 1,
        );
        assert((q as int) <= nbi);
    }
    if q < 1 {
        1
    } else {
        q as usize
    }
}

} // verus!
