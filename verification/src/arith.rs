//! Integer square roots and exact rounding of expressions of the form
//! `c + n / (2*sqrt(d))`, which is all the irrational arithmetic the
//! line-construction formulas need.

use vstd::prelude::*;

verus! {

/// Floor of the square root of `n`.
pub open spec fn fsqrt(n: nat) -> nat
    decreases n,
{
    if n == 0 {
        0
    } else {
        let r = fsqrt((n - 1) as nat);
        if (r + 1) * (r + 1) <= n {
            r + 1
        } else {
            r
        }
    }
}

/// `fsqrt(n)` is the unique natural number whose square is at most `n`
/// while the next square is above `n`.
pub proof fn lemma_fsqrt_bounds(n: nat)
    ensures
        fsqrt(n) * fsqrt(n) <= n,
        n < (fsqrt(n) + 1) * (fsqrt(n) + 1),
    decreases n,
{
    if n == 0 {
        reveal_with_fuel(fsqrt, 2);
        let f = fsqrt(n);
        assert(f == 0);
        assert(n < (f + 1) * (f + 1)) by (nonlinear_arith)
            requires
                n == 0,
                f == 0,
        ;
    } else {
        lemma_fsqrt_bounds((n - 1) as nat);
        let r = fsqrt((n - 1) as nat);
        if (r + 1) * (r + 1) <= n {
            assert(fsqrt(n) == r + 1);
            assert(n < ((r + 1) + 1) * ((r + 1) + 1)) by (nonlinear_arith)
                requires
                    n <= (r + 1) * (r + 1),
            ;
        } else {
            assert(fsqrt(n) == r);
        }
    }
}

pub proof fn lemma_fsqrt_unique(n: nat, r: nat)
    requires
        r * r <= n,
        n < (r + 1) * (r + 1),
    ensures
        r == fsqrt(n),
{
    lemma_fsqrt_bounds(n);
    let f = fsqrt(n);
    assert(r == f) by (nonlinear_arith)
        requires
            r * r <= n,
            n < (r + 1) * (r + 1),
            f * f <= n,
            n < (f + 1) * (f + 1),
    ;
}

/// Largest `r` with `r * r <= n`, by binary search.
pub fn isqrt(n: u128) -> (r: u128)
    ensures
        r == fsqrt(n as nat),
        r * r <= n,
        n < (r + 1) * (r + 1),
{
    let mut lo: u128 = 0;
    let mut hi: u128 = 0x1_0000_0000_0000_0000;
    proof {
        assert(n < (0x1_0000_0000_0000_0000 as int) * (0x1_0000_0000_0000_0000 as int))
            by (nonlinear_arith)
            requires
                n <= u128::MAX,
        ;
    }
    while lo + 1 < hi
        invariant
            lo < hi,
            hi <= 0x1_0000_0000_0000_0000,
            lo * lo <= n,
            n < hi * hi,
        decreases hi - lo,
    {
        let mid = lo + (hi - lo) / 2;
        proof {
            assert((mid as int) * (mid as int) < 0x1_0000_0000_0000_0000_0000_0000_0000_0000)
                by (nonlinear_arith)
                requires
                    mid < 0x1_0000_0000_0000_0000,
            ;
        }
        if mid * mid <= n {
            lo = mid;
        } else {
            hi = mid;
        }
    }
    proof {
        lemma_fsqrt_unique(n as nat, lo as nat);
    }
    lo
}

/// Floor of `n / sqrt(d)` for `n >= 0`, `d >= 1`, computed purely over
/// integers: taking the floor before the square root loses nothing.
pub open spec fn floor_div_sqrt(n: int, d: int) -> int {
    fsqrt(((n * n) / d) as nat) as int
}

/// Round-half-up of `n / (2*sqrt(d))` for `n >= 0`, `d >= 1`.
pub open spec fn half_round(n: int, d: int) -> int {
    (floor_div_sqrt(n, d) + 1) / 2
}

/// Does `n / (2*sqrt(d))` lie exactly halfway between two integers?
/// (Only possible when `d` divides `n*n` into a perfect odd square.)
pub open spec fn half_tie(n: int, d: int) -> bool {
    let r = half_round(n, d);
    r >= 1 && (2 * r - 1) * (2 * r - 1) * d == n * n
}

/// Round-half-away-from-zero of the real number `c + n / (2*sqrt(d))`,
/// for an integer `c` and `d >= 1`. The half-offset is rounded first;
/// a tie is then re-rounded away from the zero of the full sum.
pub open spec fn coord_round(c: int, n: int, d: int) -> int {
    if n >= 0 {
        let r = half_round(n, d);
        if half_tie(n, d) && c + r <= 0 {
            c + r - 1
        } else {
            c + r
        }
    } else {
        let r = half_round(-n, d);
        if half_tie(-n, d) && c - r >= 0 {
            c - r + 1
        } else {
            c - r
        }
    }
}

/// `floor_div_sqrt` deserves its name: `w = floor(n / sqrt(d))`, i.e.
/// `w*w*d <= n*n < (w+1)*(w+1)*d`.
pub proof fn lemma_floor_div_sqrt(n: int, d: int)
    requires
        n >= 0,
        d >= 1,
    ensures
        floor_div_sqrt(n, d) >= 0,
        floor_div_sqrt(n, d) * floor_div_sqrt(n, d) * d <= n * n,
        n * n < (floor_div_sqrt(n, d) + 1) * (floor_div_sqrt(n, d) + 1) * d,
{
    assert(n * n >= 0) by (nonlinear_arith)
        requires
            n >= 0,
    ;
    let s = n * n;
    let q = s / d;
    vstd::arithmetic::div_mod::lemma_fundamental_div_mod(s, d);
    vstd::arithmetic::div_mod::lemma_mod_division_less_than_divisor(s, d);
    vstd::arithmetic::div_mod::lemma_div_pos_is_pos(s, d);
    lemma_fsqrt_bounds(q as nat);
    let w = fsqrt(q as nat) as int;
    assert(w * w * d <= q * d <= s) by (nonlinear_arith)
        requires
            w * w <= q,
            d >= 1,
            s == q * d + s % d,
            0 <= s % d,
    ;
    assert(s < (w + 1) * (w + 1) * d) by (nonlinear_arith)
        requires
            q < (w + 1) * (w + 1),
            d >= 1,
            s == q * d + s % d,
            s % d < d,
    ;
}

/// The characterization of `half_round`: writing `r` for the result,
/// `r - 1/2 <= n/(2*sqrt(d)) < r + 1/2`, in squared integer form.
pub proof fn lemma_half_round(n: int, d: int)
    requires
        n >= 0,
        d >= 1,
    ensures
        half_round(n, d) >= 0,
        half_round(n, d) >= 1 ==> (2 * half_round(n, d) - 1) * (2 * half_round(n, d) - 1) * d
            <= n * n,
        n * n < (2 * half_round(n, d) + 1) * (2 * half_round(n, d) + 1) * d,
{
    lemma_floor_div_sqrt(n, d);
    let w = floor_div_sqrt(n, d);
    let r = half_round(n, d);
    if w % 2 == 0 {
        let t = w / 2;
        assert(r == t);
        if r >= 1 {
            assert((2 * t - 1) * (2 * t - 1) * d <= (2 * t) * (2 * t) * d) by (nonlinear_arith)
                requires
                    t >= 1,
                    d >= 1,
            ;
        }
        assert(n * n < (2 * r + 1) * (2 * r + 1) * d);
    } else {
        let t = (w - 1) / 2;
        assert(w == 2 * t + 1);
        assert(r == t + 1);
        assert((2 * r - 1) * (2 * r - 1) * d <= n * n);
        assert((w + 1) * (w + 1) * d <= (2 * r + 1) * (2 * r + 1) * d) by (nonlinear_arith)
            requires
                w + 1 >= 0,
                w + 1 <= 2 * r + 1,
                d >= 1,
        ;
    }
}

/// The rounded half-offset never exceeds half of `|n|` plus one, because
/// `sqrt(d) >= sqrt(b*b) = b` whenever `d >= b*b >= 1`.
pub proof fn lemma_half_round_bound(n: int, d: int, b: int)
    requires
        n >= 0,
        b >= 1,
        d >= b * b,
        n % b == 0,
    ensures
        half_round(n, d) <= (n / b) / 2 + 1,
{
    assert(d >= 1) by (nonlinear_arith)
        requires
            b >= 1,
            d >= b * b,
    ;
    lemma_half_round(n, d);
    let r = half_round(n, d);
    let m = n / b;
    vstd::arithmetic::div_mod::lemma_fundamental_div_mod(n, b);
    assert(n == b * m);
    assert(m >= 0) by (nonlinear_arith)
        requires
            n >= 0,
            b >= 1,
            n == b * m,
    ;
    if r > m / 2 + 1 {
        vstd::arithmetic::div_mod::lemma_fundamental_div_mod(m, 2);
        assert(2 * r - 1 >= m + 1);
        assert((m + 1) * (m + 1) * d <= (2 * r - 1) * (2 * r - 1) * d) by (nonlinear_arith)
            requires
                0 <= m + 1,
                m + 1 <= 2 * r - 1,
                d >= 1,
        ;
        assert(n * n < (m + 1) * (m + 1) * d) by (nonlinear_arith)
            requires
                n == b * m,
                m >= 0,
                b >= 1,
                d >= b * b,
        ;
    }
}

/// When the offset numerator is a multiple `u * v` of a factor `v` with
/// `d >= v*v`, the rounded coordinate stays within `|u|/2 + 2` of the
/// centre: the offset `u*v / (2*sqrt(d))` is at most `|u|/2` in absolute
/// value.
pub proof fn lemma_coord_round_mult(c: int, u: int, v: int, d: int)
    requires
        v >= 1,
        d >= v * v,
    ensures
        c - (if u >= 0 {
            u
        } else {
            -u
        }) / 2 - 2 <= coord_round(c, u * v, d) <= c + (if u >= 0 {
            u
        } else {
            -u
        }) / 2 + 2,
{
    let au = if u >= 0 {
        u
    } else {
        -u
    };
    let a = au * v;
    assert(d >= 1) by (nonlinear_arith)
        requires
            v >= 1,
            d >= v * v,
    ;
    assert(a >= 0 && (u * v >= 0 ==> a == u * v) && (u * v < 0 ==> a == -(u * v)))
        by (nonlinear_arith)
        requires
            v >= 1,
            a == (if u >= 0 {
                u
            } else {
                -u
            }) * v,
    ;
    vstd::arithmetic::div_mod::lemma_mod_multiples_basic(au, v);
    vstd::arithmetic::div_mod::lemma_div_by_multiple(au, v);
    lemma_half_round_bound(a, d, v);
    lemma_half_round(a, d);
}

/// Exact evaluation of `coord_round(c, n, d)` over machine integers.
pub fn round_coord(c: i64, n: i128, d: i128) -> (r: i64)
    requires
        1 <= d <= 0x10_0000_0000_0000_0000_0000_0000,
        -0x8000_0000_0000_0000 <= n <= 0x8000_0000_0000_0000,
        -0x4000_0000_0000 <= c <= 0x4000_0000_0000,
    ensures
        r == coord_round(c as int, n as int, d as int),
{
    let na: u128 = if n >= 0 {
        n as u128
    } else {
        (-n) as u128
    };
    let du: u128 = d as u128;
    proof {
        assert(na * na <= 0x8000_0000_0000_0000 * 0x8000_0000_0000_0000)
            by (nonlinear_arith)
            requires
                na <= 0x8000_0000_0000_0000,
        ;
    }
    let sq: u128 = na * na;
    let q: u128 = sq / du;
    let rem: u128 = sq % du;
    let w: u128 = isqrt(q);
    proof {
        vstd::arithmetic::div_mod::lemma_div_nonincreasing(sq as int, du as int);
        assert(w <= na) by (nonlinear_arith)
            requires
                w * w <= q,
                q <= na * na,
        ;
    }
    let rp: u128 = (w + 1) / 2;
    let tie: bool = if rp >= 1 {
        let t: u128 = 2 * rp - 1;
        proof {
            assert(t * t < 0x8000_0000_0000_0000_0000_0000_0000_0000) by (nonlinear_arith)
                requires
                    t <= na + 1,
                    na <= 0x8000_0000_0000_0000,
            ;
        }
        rem == 0 && t * t == q
    } else {
        false
    };
    proof {
        lemma_tie_equivalence(na as int, du as int, q as int, rem as int, rp as int, tie);
    }
    let rpi: i64 = rp as i64;
    if n >= 0 {
        if tie && c + rpi <= 0 {
            c + rpi - 1
        } else {
            c + rpi
        }
    } else {
        if tie && c - rpi >= 0 {
            c - rpi + 1
        } else {
            c - rpi
        }
    }
}

/// The executable tie test (`d` divides `n*n` with quotient an exact odd
/// square) agrees with `half_tie`.
proof fn lemma_tie_equivalence(na: int, du: int, q: int, rem: int, rp: int, tie: bool)
    requires
        na >= 0,
        du >= 1,
        q == (na * na) / du,
        rem == (na * na) % du,
        rp == half_round(na, du),
        tie == (rp >= 1 && rem == 0 && (2 * rp - 1) * (2 * rp - 1) == q),
    ensures
        tie == half_tie(na, du),
{
    assert(na * na >= 0) by (nonlinear_arith)
        requires
            na >= 0,
    ;
    let s = na * na;
    vstd::arithmetic::div_mod::lemma_fundamental_div_mod(s, du);
    vstd::arithmetic::div_mod::lemma_mod_division_less_than_divisor(s, du);
    let t = 2 * rp - 1;
    if tie {
        assert(t * t * du == q * du) by (nonlinear_arith)
            requires
                t * t == q,
        ;
        assert(q * du == s) by (nonlinear_arith)
            requires
                s == du * q + rem,
                rem == 0,
        ;
    }
    if half_tie(na, du) {
        assert(s == (t * t) * du + 0) by (nonlinear_arith)
            requires
                t * t * du == s,
        ;
        assert(t * t >= 0) by (nonlinear_arith);
        vstd::arithmetic::div_mod::lemma_fundamental_div_mod_converse(s, du, t * t, 0);
    }
}

} // verus!
