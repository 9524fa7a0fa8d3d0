//! Fixed-point exponentials with truncating arithmetic.
//!
//! A fee curve raises a base to a fractional power `num / den`.  The whole part
//! of the exponent is applied one unit at a time; the fractional part is
//! expanded into its first `FRAC_BITS` binary digits, each set digit `k`
//! contributing a factor `base^(2^-k)` taken from a table of fixed-point roots.
//! Every intermediate product is truncated toward zero.

use vstd::prelude::*;
use vstd::arithmetic::power2::{pow2, lemma_pow2_unfold, lemma2_to64};

verus! {

/// Number of binary digits of a fractional exponent that are evaluated.
pub const FRAC_BITS: u32 = 32;

/// The number one in fixed point: values carry `FRAC_BITS` fractional bits.
pub const FIXED_ONE: u128 = 0x1_0000_0000;

/// Fixed-point values at or above this bound exceed `u64::MAX` once their
/// fractional bits are dropped.
pub const FIXED_LIMIT: u128 = 0x1_0000_0000_0000_0000_0000_0000;

/// The base of an exponential curve.
#[derive(Clone, Copy, Debug, PartialEq, Eq)]
pub enum Base {
    /// Doubling per unit of exponent.
    Two,
    /// Growth by 6% per unit of exponent.
    Compound,
}

/// `base` raised to `2^-i`, as a fixed-point number, for `1 <= i <= FRAC_BITS`;
/// `FIXED_ONE` for any other `i`.
pub open spec fn root_spec(base: Base, i: u32) -> nat {
    match base {
        Base::Two => match i {
            1 => 6074000999,
            2 => 5107605667,
            3 => 4683695047,
            4 => 4485121743,
            5 => 4389014833,
            6 => 4341736423,
            7 => 4318288543,
            8 => 4306612133,
            9 => 4300785773,
            10 => 4297875550,
            11 => 4296421177,
            12 => 4295694174,
            13 => 4295330720,
            14 => 4295149004,
            15 => 4295058149,
            16 => 4295012722,
            17 => 4294990009,
            18 => 4294978652,
            19 => 4294972974,
            20 => 4294970135,
            21 => 4294968715,
            22 => 4294968005,
            23 => 4294967650,
            24 => 4294967473,
            25 => 4294967384,
            26 => 4294967340,
            27 => 4294967318,
            28 => 4294967307,
            29 => 4294967301,
            30 => 4294967298,
            31 => 4294967297,
            32 => 4294967296,
            _ => FIXED_ONE as nat,
        },
        Base::Compound => match i {
            1 => 4421939474,
            2 => 4357990985,
            3 => 4326364381,
            4 => 4310637253,
            5 => 4302795141,
            6 => 4298879436,
            7 => 4296922921,
            8 => 4295944997,
            9 => 4295456118,
            10 => 4295211700,
            11 => 4295089496,
            12 => 4295028395,
            13 => 4294997845,
            14 => 4294982570,
            15 => 4294974933,
            16 => 4294971114,
            17 => 4294969205,
            18 => 4294968250,
            19 => 4294967773,
            20 => 4294967534,
            21 => 4294967415,
            22 => 4294967355,
            23 => 4294967325,
            24 => 4294967310,
            25 => 4294967303,
            26 => 4294967299,
            27 => 4294967297,
            28 => 4294967296,
            29 => 4294967296,
            30 => 4294967296,
            31 => 4294967296,
            32 => 4294967296,
            _ => FIXED_ONE as nat,
        },
    }
}

/// Looks up `root_spec(base, i)`.
fn root(base: Base, i: u32) -> (r: u128)
    ensures
        r == root_spec(base, i),
        FIXED_ONE <= r < 2 * FIXED_ONE,
{
    match base {
        Base::Two => match i {
            1 => 6074000999,
            2 => 5107605667,
            3 => 4683695047,
            4 => 4485121743,
            5 => 4389014833,
            6 => 4341736423,
            7 => 4318288543,
            8 => 4306612133,
            9 => 4300785773,
            10 => 4297875550,
            11 => 4296421177,
            12 => 4295694174,
            13 => 4295330720,
            14 => 4295149004,
            15 => 4295058149,
            16 => 4295012722,
            17 => 4294990009,
            18 => 4294978652,
            19 => 4294972974,
            20 => 4294970135,
            21 => 4294968715,
            22 => 4294968005,
            23 => 4294967650,
            24 => 4294967473,
            25 => 4294967384,
            26 => 4294967340,
            27 => 4294967318,
            28 => 4294967307,
            29 => 4294967301,
            30 => 4294967298,
            31 => 4294967297,
            32 => 4294967296,
            _ => FIXED_ONE,
        },
        Base::Compound => match i {
            1 => 4421939474,
            2 => 4357990985,
            3 => 4326364381,
            4 => 4310637253,
            5 => 4302795141,
            6 => 4298879436,
            7 => 4296922921,
            8 => 4295944997,
            9 => 4295456118,
            10 => 4295211700,
            11 => 4295089496,
            12 => 4295028395,
            13 => 4294997845,
            14 => 4294982570,
            15 => 4294974933,
            16 => 4294971114,
            17 => 4294969205,
            18 => 4294968250,
            19 => 4294967773,
            20 => 4294967534,
            21 => 4294967415,
            22 => 4294967355,
            23 => 4294967325,
            24 => 4294967310,
            25 => 4294967303,
            26 => 4294967299,
            27 => 4294967297,
            28 => 4294967296,
            29 => 4294967296,
            30 => 4294967296,
            31 => 4294967296,
            32 => 4294967296,
            _ => FIXED_ONE,
        },
    }
}

/// One whole unit of exponent applied to the fixed-point value `v`.
pub open spec fn step_spec(base: Base, v: nat) -> nat {
    match base {
        Base::Two => v * 2,
        Base::Compound => v * 106 / 100,
    }
}

/// `n` whole units of exponent applied to the fixed-point value `v`.
pub open spec fn steps_spec(base: Base, v: nat, n: nat) -> nat
    decreases n,
{
    if n == 0 {
        v
    } else {
        steps_spec(base, step_spec(base, v), (n - 1) as nat)
    }
}

/// The fixed-point factor `acc`, multiplied by `base^(2^-k)` for each set binary
/// digit `k` (from `i + 1` up to `FRAC_BITS`) of a fraction whose remainder
/// after `i` digits is `rem / den`.
pub open spec fn frac_from(base: Base, rem: nat, den: nat, i: nat, acc: nat) -> nat
    decreases FRAC_BITS - i,
{
    if i >= FRAC_BITS {
        acc
    } else if 2 * rem >= den {
        frac_from(base, (2 * rem - den) as nat, den, i + 1, acc * root_spec(base, (i + 1) as u32) / FIXED_ONE as nat)
    } else {
        frac_from(base, 2 * rem, den, i + 1, acc)
    }
}

/// `base^(num / den)` in fixed point, for `num < den`.
pub open spec fn frac_spec(base: Base, num: nat, den: nat) -> nat {
    frac_from(base, num, den, 0, FIXED_ONE as nat)
}

/// `amount * base^(num / den)`, truncated toward zero and capped at `u64::MAX`.
pub open spec fn scale_up_spec(base: Base, amount: nat, num: nat, den: nat) -> nat {
    let v = steps_spec(base, amount * frac_spec(base, num % den, den), num / den) / FIXED_ONE as nat;
    if v > u64::MAX {
        u64::MAX as nat
    } else {
        v
    }
}

/// `amount / 2^(num / den)`, truncated toward zero.
pub open spec fn scale_down_spec(amount: nat, num: nat, den: nat) -> nat {
    amount * FIXED_ONE as nat / steps_spec(Base::Two, frac_spec(Base::Two, num % den, den), num / den)
}

proof fn lemma_step_grows(base: Base, v: nat)
    ensures
        step_spec(base, v) >= v,
{
    match base {
        Base::Two => {},
        Base::Compound => {
            assert(v * 106 / 100 >= v) by (nonlinear_arith);
        },
    }
}

proof fn lemma_steps_grow(base: Base, v: nat, n: nat)
    ensures
        steps_spec(base, v, n) >= v,
    decreases n,
{
    if n > 0 {
        lemma_step_grows(base, v);
        lemma_steps_grow(base, step_spec(base, v), (n - 1) as nat);
    }
}

proof fn lemma_steps_stall(base: Base, v: nat, n: nat)
    requires
        step_spec(base, v) == v,
    ensures
        steps_spec(base, v, n) == v,
    decreases n,
{
    if n > 0 {
        lemma_steps_stall(base, v, (n - 1) as nat);
    }
}

fn step(base: Base, v: u128) -> (r: u128)
    requires
        v < FIXED_LIMIT,
    ensures
        r == step_spec(base, v as nat),
{
    match base {
        Base::Two => v * 2,
        Base::Compound => v * 106 / 100,
    }
}

/// Applies `n` whole units of exponent to `v`, stopping early once the value
/// reaches `FIXED_LIMIT`.
fn steps(base: Base, v: u128, n: u64) -> (r: u128)
    ensures
        r <= steps_spec(base, v as nat, n as nat),
        r == steps_spec(base, v as nat, n as nat) || r >= FIXED_LIMIT,
{
    let mut cur: u128 = v;
    let mut i: u64 = 0;
    let mut stalled = false;
    while i < n && cur < FIXED_LIMIT && !stalled
        invariant
            i <= n,
            steps_spec(base, cur as nat, (n - i) as nat) == steps_spec(base, v as nat, n as nat),
            stalled ==> step_spec(base, cur as nat) == cur,
        decreases n - i, if stalled { 0int } else { 1int },
    {
        let next = step(base, cur);
        if next == cur {
            stalled = true;
        } else {
            cur = next;
            i = i + 1;
        }
    }
    proof {
        if stalled {
            lemma_steps_stall(base, cur as nat, (n - i) as nat);
        } else {
            lemma_steps_grow(base, cur as nat, (n - i) as nat);
        }
    }
    cur
}

/// Computes `frac_spec(base, num, den)`.
fn frac(base: Base, num: u128, den: u128) -> (r: u128)
    requires
        num < den,
        den <= FIXED_LIMIT,
    ensures
        r == frac_spec(base, num as nat, den as nat),
        FIXED_ONE <= r <= FIXED_ONE * FIXED_ONE,
{
    let mut rem: u128 = num;
    let mut acc: u128 = FIXED_ONE;
    let mut i: u32 = 0;
    proof {
        lemma2_to64();
    }
    while i < FRAC_BITS
        invariant
            i <= FRAC_BITS,
            rem < den,
            den <= FIXED_LIMIT,
            FIXED_ONE <= acc <= FIXED_ONE * pow2(i as nat),
            pow2(32) == FIXED_ONE,
            frac_from(base, rem as nat, den as nat, i as nat, acc as nat) == frac_spec(base, num as nat, den as nat),
        decreases FRAC_BITS - i,
    {
        proof {
            lemma_pow2_unfold((i + 1) as nat);
            lemma_pow2_le(i as nat, 32);
        }
        if 2 * rem >= den {
            let rt = root(base, i + 1);
            let old_acc = acc;
            proof {
                let a = old_acc as int;
                let t = rt as int;
                let o = FIXED_ONE as int;
                let p = pow2(i as nat) as int;
                assert(a * t <= o * o * (2 * o)) by (nonlinear_arith)
                    requires t < 2 * o, o <= a <= o * p, 0 < p <= o;
            }
            acc = acc * rt / FIXED_ONE;
            proof {
                let a = old_acc as int;
                let t = rt as int;
                let o = FIXED_ONE as int;
                let p = pow2(i as nat) as int;
                assert(a <= a * t / o <= o * (2 * p)) by (nonlinear_arith)
                    requires o <= t < 2 * o, o <= a <= o * p, o > 0;
            }
            rem = 2 * rem - den;
        } else {
            rem = 2 * rem;
        }
        i = i + 1;
    }
    acc
}

proof fn lemma_pow2_le(a: nat, b: nat)
    requires
        a <= b,
    ensures
        pow2(a) <= pow2(b),
    decreases b - a,
{
    if a < b {
        lemma_pow2_le(a, (b - 1) as nat);
        lemma_pow2_unfold(b);
    }
}

/// `amount * base^(num / den)`, truncated toward zero and capped at `u64::MAX`.
pub fn scale_up(base: Base, amount: u64, num: u64, den: u64) -> (r: u64)
    requires
        den > 0,
    ensures
        r == scale_up_spec(base, amount as nat, num as nat, den as nat),
{
    let f = frac(base, (num % den) as u128, den as u128);
    proof {
        assert(amount * f <= 0xffff_ffff_ffff_ffff * (FIXED_ONE * FIXED_ONE)) by (nonlinear_arith)
            requires amount <= 0xffff_ffff_ffff_ffffu64, f <= FIXED_ONE * FIXED_ONE;
    }
    let x = amount as u128 * f;
    let s = steps(base, x, num / den);
    if s >= FIXED_LIMIT {
        u64::MAX
    } else {
        (s / FIXED_ONE) as u64
    }
}

/// `amount / 2^(num / den)`, truncated toward zero.
pub fn scale_down(amount: u64, num: u64, den: u128) -> (r: u64)
    requires
        0 < den <= FIXED_LIMIT,
    ensures
        r == scale_down_spec(amount as nat, num as nat, den as nat),
{
    let f = frac(Base::Two, num as u128 % den, den);
    let s = steps(Base::Two, f, (num as u128 / den) as u64);
    proof {
        lemma_steps_grow(Base::Two, f as nat, (num as u128 / den) as nat);
    }
    let scaled = amount as u128 * FIXED_ONE;
    if s >= FIXED_LIMIT {
        proof {
            let d = steps_spec(Base::Two, f as nat, (num as u128 / den) as nat);
            assert(scaled as nat / d == 0) by (nonlinear_arith)
                requires scaled < FIXED_LIMIT, d >= FIXED_LIMIT;
        }
        0
    } else {
        proof {
            let d = s as nat;
            assert(scaled as nat / d <= scaled as nat / FIXED_ONE as nat) by (nonlinear_arith)
                requires d >= FIXED_ONE;
        }
        (scaled / s) as u64
    }
}

} // verus!
