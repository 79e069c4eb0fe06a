//! Integer arithmetic that reproduces, exactly, how a count shown with one decimal
//! (`format!("{:.1}", v as f64 / d as f64)`) comes out: the count is rounded to a
//! double, divided with round-to-nearest-even, and the double is then rounded to
//! tenths, ties to even.
use vstd::arithmetic::div_mod::*;
use vstd::arithmetic::power2::*;
use vstd::prelude::*;

verus! {

/// `n / d` rounded to the nearest integer, ties to the even one.
pub open spec fn round_half_even(n: nat, d: nat) -> nat {
    let q = n / d;
    let r = n % d;
    if 2 * r < d {
        q
    } else if 2 * r > d {
        q + 1
    } else if q % 2 == 0 {
        q
    } else {
        q + 1
    }
}

/// `floor(log2(n))` for `n >= 1`.
pub open spec fn ilog2(n: nat) -> nat
    decreases n,
{
    if n <= 1 {
        0
    } else {
        1 + ilog2(n / 2)
    }
}

/// The value of `v as f64`: `v` rounded to 53 significant bits, ties to even.
pub open spec fn f64_of_count(v: nat) -> nat {
    if v < pow2(53) {
        v
    } else {
        let sh = (ilog2(v) - 52) as nat;
        round_half_even(v, pow2(sh)) * pow2(sh)
    }
}

/// The binary exponent scale `s` of the double nearest to `a / d`: that double is
/// `m / 2^s` with `2^52 <= m <= 2^53`.
pub open spec fn quotient_scale(a: nat, d: nat) -> nat {
    (52 - ilog2(a / d)) as nat
}

/// The numerator `m` of the double nearest to `a / d`, which is `m / 2^quotient_scale(a, d)`.
pub open spec fn quotient_mantissa(a: nat, d: nat) -> nat {
    round_half_even(a * pow2(quotient_scale(a, d)), d)
}

/// `v as f64 / d as f64`, rounded to tenths with ties to even, times ten: the
/// digits that `{:.1}` prints, without the point.
pub open spec fn tenths_of_quotient(v: nat, d: nat) -> nat {
    let a = f64_of_count(v);
    round_half_even(10 * quotient_mantissa(a, d), pow2(quotient_scale(a, d)))
}

proof fn lemma_ilog2_bounds(n: nat)
    requires
        n >= 1,
    ensures
        pow2(ilog2(n)) <= n < pow2(ilog2(n) + 1),
    decreases n,
{
    if n <= 1 {
        lemma2_to64();
    } else {
        lemma_ilog2_bounds(n / 2);
        lemma_pow2_unfold(ilog2(n));
        lemma_pow2_unfold(ilog2(n) + 1);
    }
}

proof fn lemma_ilog2_unique(n: nat, e: nat)
    requires
        pow2(e) <= n < pow2(e + 1),
    ensures
        ilog2(n) == e,
    decreases e,
{
    if e == 0 {
        lemma2_to64();
    } else {
        lemma_pow2_unfold(e);
        lemma_pow2_unfold(e + 1);
        lemma_pow2_pos((e - 1) as nat);
        lemma_ilog2_unique(n / 2, (e - 1) as nat);
    }
}

/// `2^k`.
fn pow2_exec(k: u32) -> (r: u128)
    requires
        k < 127,
    ensures
        r == pow2(k as nat),
{
    let mut r: u128 = 1;
    let mut i: u32 = 0;
    proof {
        lemma2_to64();
    }
    while i < k
        invariant
            i <= k < 127,
            r == pow2(i as nat),
        decreases k - i,
    {
        proof {
            lemma_pow2_unfold((i + 1) as nat);
            lemma_pow2_strictly_increases((i + 1) as nat, 127);
            lemma_pow2_adds(64, 63);
            lemma2_to64_rest();
        }
        r = r * 2;
        i = i + 1;
    }
    r
}

/// `floor(log2(n))`.
fn ilog2_exec(n: u128) -> (r: u32)
    requires
        n >= 1,
    ensures
        r == ilog2(n as nat),
        r < 128,
{
    let mut p: u128 = 1;
    let mut e: u32 = 0;
    proof {
        lemma2_to64();
    }
    while p <= n / 2
        invariant
            1 <= p <= n,
            p == pow2(e as nat),
            e < 128,
        decreases n - p,
    {
        proof {
            lemma_pow2_unfold((e + 1) as nat);
            if e + 1 >= 128 {
                lemma_pow2_strictly_increases(127, (e + 1) as nat);
                lemma2_to64();
                lemma_pow2_adds(64, 63);
                lemma_pow2_adds(32, 31);
                lemma_pow2_unfold(63);
            }
        }
        p = p * 2;
        e = e + 1;
    }
    proof {
        lemma_pow2_unfold((e + 1) as nat);
        lemma_ilog2_unique(n as nat, e as nat);
    }
    e
}

/// `n / d` rounded to the nearest integer, ties to the even one.
fn round_half_even_exec(n: u128, d: u128) -> (r: u128)
    requires
        d > 0,
        n < 0x8000_0000_0000_0000_0000_0000_0000_0000,
        d < 0x8000_0000_0000_0000_0000_0000_0000_0000,
    ensures
        r == round_half_even(n as nat, d as nat),
        r <= n / d + 1,
{
    let q = n / d;
    let r = n % d;
    if 2 * r < d {
        q
    } else if 2 * r > d {
        q + 1
    } else if q % 2 == 0 {
        q
    } else {
        q + 1
    }
}

/// `v as f64`, as an integer.
fn f64_of_count_exec(v: u64) -> (a: u128)
    ensures
        a == f64_of_count(v as nat),
        v < pow2(53) ==> a == v,
        v >= pow2(53) ==> pow2(53) <= a,
        a <= 0x1_0000_0000_0000_0800,
{
    proof {
        lemma2_to64();
        lemma2_to64_rest();
    }
    if v < 0x20_0000_0000_0000 {
        return v as u128;
    }
    let e = ilog2_exec(v as u128);
    proof {
        lemma_ilog2_bounds(v as nat);
        if e + 1 < 53 {
            lemma_pow2_strictly_increases((e + 1) as nat, 53);
        }
        if e > 63 {
            lemma_pow2_strictly_increases(64, e as nat);
        }
    }
    let sh = e - 52;
    let p = pow2_exec(sh);
    let big_a = round_half_even_exec(v as u128, p);
    proof {
        lemma_pow2_adds(52, sh as nat);
        lemma_pow2_strictly_increases(sh as nat, 12);
        lemma_pow2_unfold(12);
        lemma_pow2_unfold(11);
        lemma_pow2_unfold(10);
        let vq = (v as nat) / (p as nat);
        lemma_fundamental_div_mod(v as int, p as int);
        assert(vq * p <= v) by (nonlinear_arith)
            requires
                v == p * vq + (v as nat) % (p as nat),
                (v as nat) % (p as nat) >= 0,
        ;
        assert(pow2(52) <= vq) by (nonlinear_arith)
            requires
                v == p * vq + (v as nat) % (p as nat),
                (v as nat) % (p as nat) < p,
                pow2(52) * p <= v,
                p > 0,
        ;
        assert(big_a * p <= v + p) by (nonlinear_arith)
            requires
                big_a <= vq + 1,
                vq * p <= v,
                p > 0,
        ;
        assert(pow2(52) * p <= big_a * p) by (nonlinear_arith)
            requires
                pow2(52) <= vq,
                vq <= big_a,
                p > 0,
        ;
    }
    assert(((e - 52) as nat) == (ilog2(v as nat) - 52) as nat);
    big_a * p
}

/// `v as f64 / d as f64`, rounded to tenths with ties to even, times ten.
pub fn tenths_of_quotient_exec(v: u64, d: u64) -> (t: u128)
    requires
        1000 <= d <= 1_000_000,
        d <= v,
        d == 1_000_000 || v < 1_000_000,
    ensures
        t == tenths_of_quotient(v as nat, d as nat),
        t < 0x200_0000_0000_0000_0000_0000_0000_0000,
{
    let a = f64_of_count_exec(v);
    proof {
        lemma2_to64();
        lemma2_to64_rest();
    }
    let dd = d as u128;
    let q = a / dd;
    proof {
        assert(a >= dd);
        lemma_div_is_ordered(dd as int, a as int, dd as int);
        lemma_div_by_self(dd as int);
        if d == 1_000_000 {
            lemma_div_is_ordered(a as int, 0x1_0000_0000_0000_0800, dd as int);
        } else {
            lemma_div_decreases(a as int, dd as int);
        }
        assert(q < pow2(52));
    }
    let e = ilog2_exec(q);
    proof {
        lemma_ilog2_bounds(q as nat);
        if e >= 52 {
            if e > 52 {
                lemma_pow2_strictly_increases(52, e as nat);
            }
        }
    }
    let sc = 52 - e;
    let p = pow2_exec(sc);
    proof {
        if sc < 52 {
            lemma_pow2_strictly_increases(sc as nat, 52);
        }
        assert(a * p <= 0x2_0000_0000_0000_0000 * 0x10_0000_0000_0000) by (nonlinear_arith)
            requires
                a <= 0x2_0000_0000_0000_0000,
                p <= 0x10_0000_0000_0000,
        ;
    }
    let m = round_half_even_exec(a * p, dd);
    proof {
        lemma_div_is_ordered_by_denominator((a * p) as int, 1, dd as int);
    }
    let t = round_half_even_exec(10 * m, p);
    proof {
        lemma_pow2_pos(sc as nat);
        lemma_div_is_ordered_by_denominator((10 * m) as int, 1, p as int);
    }
    t
}

} // verus!
