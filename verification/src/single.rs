//! Single-precision arithmetic in integers: every result is the same on every machine, with or
//! without a floating-point unit.

use vstd::arithmetic::div_mod::*;
use vstd::arithmetic::power2::*;
use vstd::bits::*;
use vstd::prelude::*;

use crate::number::Number;

verus! {

/// A single-precision value, held in its 32-bit encoding: a sign bit, an exponent of 8 bits and
/// a fraction of 23 bits.
#[derive(Clone, Copy, PartialEq, Eq, Structural, Debug)]
pub struct Single {
    pub bits: u32,
}

impl View for Single {
    type V = Number;

    open spec fn view(&self) -> Number {
        let neg = self.bits >= 0x8000_0000;
        let body = self.bits as nat % 0x8000_0000;
        let exponent = body / 0x80_0000;
        let fraction = body % 0x80_0000;
        if exponent == 255 {
            if fraction == 0 {
                Number::Infinite { neg }
            } else {
                Number::Nan
            }
        } else if exponent == 0 {
            Number::Finite { neg, mag: fraction }
        } else {
            Number::Finite { neg, mag: (0x80_0000 + fraction) * pow2((exponent - 1) as nat) }
        }
    }
}

/// A value taken apart: a finite magnitude is `m * 2^e` units.
enum Parts {
    Finite { neg: bool, m: u32, e: u32 },
    Infinite { neg: bool },
    Nan,
}

impl Parts {
    /// The parts of `number`, with as many significant bits as the encoding has.
    spec fn of(self, number: Number) -> bool {
        match self {
            Parts::Finite { neg, m, e } => {
                &&& number == (Number::Finite { neg, mag: m as nat * pow2(e as nat) })
                &&& m < 0x100_0000
                &&& e <= 253
                &&& e > 0 ==> m >= 0x80_0000
            },
            Parts::Infinite { neg } => number == (Number::Infinite { neg }),
            Parts::Nan => number == Number::Nan,
        }
    }
}

/// `2^s` for positive `s`, otherwise 1.
spec fn up(s: int) -> nat {
    if s > 0 {
        pow2(s as nat)
    } else {
        1
    }
}

proof fn lemma_double_num(n: nat, d: nat, s: int)
    requires
        d > 0,
    ensures
        Number::round_mag((2 * n) * up(s - 1), d * up(1 - s)) == Number::round_mag(
            n * up(s),
            d * up(-s),
        ),
{
    lemma2_to64();
    if s > 0 {
        lemma_pow2_unfold(s as nat);
        assert((2 * n) * up(s - 1) == n * up(s)) by (nonlinear_arith)
            requires
                up(s) == 2 * up(s - 1),
        ;
        assert(up(1 - s) == 1 && up(-s) == 1);
    } else {
        lemma_pow2_unfold((1 - s) as nat);
        assert(up(1 - s) == 2 * up(-s));
        assert(d * up(1 - s) == 2 * (d * up(-s))) by (nonlinear_arith)
            requires
                up(1 - s) == 2 * up(-s),
        ;
        if s < 0 {
            lemma_pow2_pos((-s) as nat);
        }
        assert(d * up(-s) > 0) by (nonlinear_arith)
            requires
                d > 0,
                up(-s) > 0,
        ;
        assert((2 * n) * up(s - 1) == 2 * (n * up(s)));
        crate::number::lemma_round_scale(n * up(s), d * up(-s), 2);
    }
}

proof fn lemma_double_den(n: nat, d: nat, s: int)
    requires
        d > 0,
    ensures
        Number::round_mag(n * up(s + 1), (2 * d) * up(-s - 1)) == Number::round_mag(
            n * up(s),
            d * up(-s),
        ),
{
    lemma2_to64();
    if s < 0 {
        lemma_pow2_unfold((-s) as nat);
        assert((2 * d) * up(-s - 1) == d * up(-s)) by (nonlinear_arith)
            requires
                up(-s) == 2 * up(-s - 1),
        ;
        assert(up(s + 1) == 1 && up(s) == 1);
    } else {
        lemma_pow2_unfold((s + 1) as nat);
        assert(n * up(s + 1) == 2 * (n * up(s))) by (nonlinear_arith)
            requires
                up(s + 1) == 2 * up(s),
        ;
        assert((2 * d) * up(-s - 1) == 2 * (d * up(-s)));
        crate::number::lemma_round_scale(n * up(s), d * up(-s), 2);
    }
}

/// Powers of two above and below the line cancel.
proof fn lemma_cancel(n: nat, d: nat, a: nat, b: nat)
    requires
        d > 0,
    ensures
        Number::round_mag(n * pow2(a), d * pow2(b)) == Number::round_mag(
            n * up(a - b),
            d * up(b - a),
        ),
{
    lemma2_to64();
    let c = if a < b {
        a
    } else {
        b
    };
    lemma_pow2_pos(c);
    lemma_pow2_pos((b - c) as nat);
    lemma_pow2_adds(c, (a - c) as nat);
    lemma_pow2_adds(c, (b - c) as nat);
    assert(up(a - b) == pow2((a - c) as nat));
    assert(up(b - a) == pow2((b - c) as nat));
    let x = up(a - b);
    let y = up(b - a);
    assert(n * pow2(a) == pow2(c) * (n * x)) by (nonlinear_arith)
        requires
            pow2(a) == pow2(c) * x,
    ;
    assert(d * pow2(b) == pow2(c) * (d * y)) by (nonlinear_arith)
        requires
            pow2(b) == pow2(c) * y,
    ;
    assert(d * y > 0) by (nonlinear_arith)
        requires
            d > 0,
            y > 0,
    ;
    crate::number::lemma_round_scale(n * x, d * y, pow2(c));
}

/// The whole number nearest to `n / d`, the even one on a tie.
fn nearest(n: u64, d: u64) -> (q: u64)
    requires
        0 < d < 0x40_0000_0000_0000,
        n < 0x40_0000_0000_0000,
    ensures
        q == Number::nearest_even(n as nat, d as nat),
{
    let q: u64 = n / d;
    let r: u64 = n % d;
    assert(q <= n) by (nonlinear_arith)
        requires
            q == n / d,
            d > 0,
            n >= 0,
    ;
    if 2 * r < d || (2 * r == d && q % 2 == 0) {
        q
    } else {
        q + 1
    }
}

/// The encoding of `q * 2^k` units, where `q` is rounded to 24 bits already.
fn assemble(neg: bool, q: u64, k: i64) -> (r: Single)
    requires
        q <= 0x100_0000,
        0 <= k,
        k > 0 ==> q >= 0x80_0000,
    ensures
        r@ == (if q as nat * pow2(k as nat) >= pow2(277) {
            Number::Infinite { neg }
        } else {
            Number::Finite { neg, mag: q as nat * pow2(k as nat) }
        }),
{
    let sign: u32 = if neg {
        0x8000_0000
    } else {
        0
    };
    proof {
        lemma2_to64();
        lemma_pow2_adds(23, 254);
        lemma_pow2_adds(24, 253);
        lemma_pow2_pos(k as nat);
    }
    if k > 253 || (k == 253 && q == 0x100_0000) {
        proof {
            if k > 254 {
                lemma_pow2_strictly_increases(254, k as nat);
            }
            assert(q as nat * pow2(k as nat) >= pow2(277)) by (nonlinear_arith)
                requires
                    pow2(277) == 0x80_0000 * pow2(254),
                    pow2(277) == 0x100_0000 * pow2(253),
                    (q >= 0x80_0000 && pow2(k as nat) >= pow2(254)) || (q == 0x100_0000 && k
                        == 253),
            ;
        }
        return Single { bits: sign + 0x7F80_0000 };
    }
    proof {
        if k < 253 {
            lemma_pow2_strictly_increases(k as nat, 253);
        }
        if q < 0x100_0000 {
            assert(q as nat * pow2(k as nat) < pow2(277)) by (nonlinear_arith)
                requires
                    pow2(277) == 0x100_0000 * pow2(253),
                    q < 0x100_0000,
                    0 < pow2(k as nat) <= pow2(253),
            ;
        } else {
            assert(q as nat * pow2(k as nat) < pow2(277)) by (nonlinear_arith)
                requires
                    pow2(277) == 0x100_0000 * pow2(253),
                    q == 0x100_0000,
                    0 < pow2(k as nat) < pow2(253),
            ;
        }
    }
    if q < 0x80_0000 {
        assert(q as nat * pow2(0) == q);
        let r: Single = Single { bits: sign + (q as u32) };
        return r;
    }
    if q < 0x100_0000 {
        let body: u32 = (k as u32 + 1) * 0x80_0000 + (q as u32 - 0x80_0000);
        assert(body / 0x80_0000 == k + 1 && body % 0x80_0000 == q - 0x80_0000);
        Single { bits: sign + body }
    } else {
        let body: u32 = (k as u32 + 2) * 0x80_0000;
        proof {
            lemma_pow2_unfold((k + 1) as nat);
            assert(0x80_0000 * pow2((k + 1) as nat) == q as nat * pow2(k as nat))
                by (nonlinear_arith)
                requires
                    pow2((k + 1) as nat) == 2 * pow2(k as nat),
                    q == 0x100_0000,
            ;
        }
        assert(body / 0x80_0000 == k + 2 && body % 0x80_0000 == 0);
        Single { bits: sign + body }
    }
}

/// `num / den * 2^s` units, rounded.
fn round_ratio(neg: bool, num: u64, den: u64, s: i64) -> (r: Single)
    requires
        num < 0x4_0000_0000_0000,
        0 < den < 0x100_0000,
        -1000 <= s <= 1000,
    ensures
        r@ == Number::round(neg, num as nat * up(s as int), den as nat * up(-s)),
{
    let ghost mag = Number::round_mag(num as nat * up(s as int), den as nat * up(-s));
    proof {
        lemma2_to64();
        lemma_pow2_strictly_increases(0, 277);
    }
    if num == 0 {
        proof {
            if s < 0 {
                lemma_pow2_pos((-s) as nat);
            }
            assert(num as nat * up(s as int) == 0) by (nonlinear_arith)
                requires
                    num == 0,
            ;
            assert(den as nat * up(-s) > 0) by (nonlinear_arith)
                requires
                    den > 0,
                    up(-s) > 0,
            ;
            crate::number::lemma_round_small(0, den as nat * up(-s));
            lemma_fundamental_div_mod_converse(0, den as int * up(-s), 0, 0);
            assert(0 * pow2(0) == 0);
        }
        return assemble(neg, 0, 0);
    }
    let mut n: u64 = num;
    let mut d: u64 = den;
    let mut t: i64 = s;
    while n < 0x80_0000 * d
        invariant
            0 < n < 0x4_0000_0000_0000,
            0 < d < 0x100_0000,
            -1000 <= s <= 1000,
            0 <= s - t <= n,
            mag == Number::round_mag(n as nat * up(t as int), d as nat * up(-t)),
        decreases 0x100_0000 * d - n,
    {
        proof {
            lemma_double_num(n as nat, d as nat, t as int);
        }
        n = 2 * n;
        t = t - 1;
    }
    let ghost t0 = t as int;
    while n >= 0x100_0000 * d
        invariant
            0 < n < 0x4_0000_0000_0000,
            0 < d < 0x800_0000,
            0x80_0000 * d <= n,
            t0 <= 1000,
            -0x4_0000_0000_1000 <= t0 <= t,
            t - t0 <= d,
            mag == Number::round_mag(n as nat * up(t as int), d as nat * up(-t)),
        decreases n - d,
    {
        proof {
            lemma_double_den(n as nat, d as nat, t as int);
        }
        d = 2 * d;
        t = t + 1;
    }
    if t >= 0 {
        let q: u64 = nearest(n, d);
        proof {
            assert(up(-t) == 1 && up(t as int) == pow2(t as nat));
            crate::number::lemma_round_normal(n as nat, d as nat, t as nat);
            crate::number::lemma_nearest_bounds(n as nat, d as nat, 0x80_0000, 0x100_0000);
        }
        assemble(neg, q, t)
    } else if t <= -25 {
        proof {
            let e = (-t) as nat;
            if e > 25 {
                lemma_pow2_strictly_increases(25, e);
            }
            let den2 = d as nat * pow2(e);
            assert(n < 0x80_0000 * den2 && 2 * n < den2) by (nonlinear_arith)
                requires
                    n < 0x100_0000 * d,
                    den2 == d as nat * pow2(e),
                    pow2(e) >= 0x200_0000,
            ;
            assert(n as nat * up(t as int) == n);
            crate::number::lemma_round_small(n as nat, den2);
            lemma_fundamental_div_mod_converse(n as int, den2 as int, 0, n as int);
            assert(0 * pow2(0) == 0);
        }
        assemble(neg, 0, 0)
    } else {
        let e: u64 = (-t) as u64;
        proof {
            if e < 24 {
                lemma_pow2_strictly_increases(e as nat, 24);
            }
            if e > 1 {
                lemma_pow2_strictly_increases(1, e as nat);
            }
            assert(d as nat * pow2(e as nat) < 0x8_0000_0000_0000) by (nonlinear_arith)
                requires
                    d < 0x800_0000,
                    pow2(e as nat) <= 0x100_0000,
            ;
            lemma_u64_shl_is_mul(d, e);
        }
        let den2: u64 = d << e;
        proof {
            assert(n <= 0x80_0000 * (d as nat * pow2(e as nat)) && d as nat * pow2(e as nat) > 0)
                by (nonlinear_arith)
                requires
                    n < 0x100_0000 * d,
                    d > 0,
                    pow2(e as nat) >= 2,
            ;
            assert(n as nat * up(t as int) == n);
            crate::number::lemma_round_small(n as nat, den2 as nat);
            crate::number::lemma_nearest_bounds(n as nat, den2 as nat, 0, 0x80_0000);
        }
        let q: u64 = nearest(n, den2);
        assert(q as nat * pow2(0) == q);
        assemble(neg, q, 0)
    }
}

/// A term smaller by 26 powers of two or more does not move a sum.
proof fn lemma_absorb(m1: nat, e1: nat, m2: nat, e2: nat, minus: bool)
    requires
        0x80_0000 <= m1 < 0x100_0000,
        m2 < 0x100_0000,
        e1 >= e2 + 26,
    ensures
        m2 * pow2(e2) < m1 * pow2(e1),
        !minus ==> Number::round_mag(m1 * pow2(e1) + m2 * pow2(e2), 1) == m1 * pow2(e1),
        minus ==> Number::round_mag((m1 * pow2(e1) - m2 * pow2(e2)) as nat, 1) == m1 * pow2(e1),
{
    let d = (e1 - e2) as nat;
    let p = pow2(d);
    let u = pow2(e2);
    lemma2_to64();
    lemma_pow2_pos(e2);
    lemma_pow2_adds(d, e2);
    if d > 26 {
        lemma_pow2_strictly_increases(26, d);
    }
    assert(p >= 0x400_0000);
    assert(m1 * pow2(e1) == (m1 * p) * u) by (nonlinear_arith)
        requires
            pow2(e1) == p * u,
    ;
    assert(m2 * u < m1 * pow2(e1)) by (nonlinear_arith)
        requires
            m1 * pow2(e1) == (m1 * p) * u,
            m2 < 0x100_0000,
            m1 >= 1,
            p >= 0x400_0000,
            u > 0,
    ;
    if !minus || m2 == 0 {
        let n = m1 * p + m2;
        assert(m1 * pow2(e1) + m2 * u == n * u) by (nonlinear_arith)
            requires
                m1 * pow2(e1) == (m1 * p) * u,
                n == m1 * p + m2,
        ;
        lemma_whole_shift(n, d, e2);
        assert(0x80_0000 * p <= n < 0x100_0000 * p) by (nonlinear_arith)
            requires
                n == m1 * p + m2,
                0x80_0000 <= m1 <= 0xFF_FFFF,
                m2 < p,
        ;
        crate::number::lemma_round_normal(n, p, e1);
        lemma_fundamental_div_mod_converse(n as int, p as int, m1 as int, m2 as int);
    } else if m1 > 0x80_0000 {
        let n = (m1 * p - m2) as nat;
        assert(m1 * p >= p) by (nonlinear_arith)
            requires
                m1 >= 1,
        ;
        assert(m1 * pow2(e1) - m2 * u == n * u) by (nonlinear_arith)
            requires
                m1 * pow2(e1) == (m1 * p) * u,
                n == m1 * p - m2,
        ;
        lemma_whole_shift(n, d, e2);
        assert(0x80_0000 * p <= n < 0x100_0000 * p && n == (m1 - 1) * p + (p - m2))
            by (nonlinear_arith)
            requires
                n == m1 * p - m2,
                0x80_0001 <= m1 <= 0xFF_FFFF,
                0 < m2 < p,
        ;
        crate::number::lemma_round_normal(n, p, e1);
        lemma_fundamental_div_mod_converse(n as int, p as int, m1 - 1, p - m2);
    } else {
        let h = pow2((d - 1) as nat);
        lemma_pow2_unfold(d);
        lemma_pow2_unfold(e1);
        let n = (m1 * p - m2) as nat;
        assert(m1 * pow2(e1) - m2 * u == n * u) by (nonlinear_arith)
            requires
                m1 * pow2(e1) == (m1 * p) * u,
                n == m1 * p - m2,
        ;
        lemma_whole_shift(n, (d - 1) as nat, e2);
        assert(n == 0xFF_FFFF * h + (h - m2)) by (nonlinear_arith)
            requires
                n == m1 * p - m2,
                m1 == 0x80_0000,
                p == 2 * h,
        ;
        crate::number::lemma_round_normal(n, h, (e1 - 1) as nat);
        lemma_fundamental_div_mod_converse(n as int, h as int, 0xFF_FFFF, h - m2);
        assert(0x100_0000 * pow2((e1 - 1) as nat) == m1 * pow2(e1)) by (nonlinear_arith)
            requires
                pow2(e1) == 2 * pow2((e1 - 1) as nat),
                m1 == 0x80_0000,
        ;
    }
}

/// A whole number of units, written as a ratio.
pub proof fn lemma_whole_shift(n: nat, d: nat, e: nat)
    ensures
        Number::round_mag(n * pow2(e), 1) == Number::round_mag(n * pow2(d + e), pow2(d)),
{
    lemma_pow2_pos(d);
    lemma_pow2_adds(d, e);
    assert(n * pow2(d + e) == pow2(d) * (n * pow2(e))) by (nonlinear_arith)
        requires
            pow2(d + e) == pow2(d) * pow2(e),
    ;
    crate::number::lemma_round_scale(n * pow2(e), 1, pow2(d));
}

/// `m1 * 2^e1` and `m2 * 2^e2` units, added with their signs; `e1` is the greater exponent.
fn add_parts(neg1: bool, m1: u32, e1: u32, neg2: bool, m2: u32, e2: u32) -> (r: Single)
    requires
        m1 < 0x100_0000,
        m2 < 0x100_0000,
        e2 <= e1 <= 253,
        e1 > 0 ==> m1 >= 0x80_0000,
    ensures
        r@ == (Number::Finite { neg: neg1, mag: m1 as nat * pow2(e1 as nat) }).plus(
            Number::Finite { neg: neg2, mag: m2 as nat * pow2(e2 as nat) },
        ),
{
    let ghost a = m1 as nat * pow2(e1 as nat);
    let ghost b = m2 as nat * pow2(e2 as nat);
    let d: u64 = (e1 - e2) as u64;
    proof {
        lemma2_to64();
        lemma_pow2_pos(e1 as nat);
        lemma_pow2_pos(e2 as nat);
    }
    if d >= 26 {
        proof {
            lemma_absorb(m1 as nat, e1 as nat, m2 as nat, e2 as nat, neg1 != neg2);
        }
        return assemble(neg1, m1 as u64, e1 as i64);
    }
    proof {
        if d < 26 {
            lemma_pow2_strictly_increases(d as nat, 26);
        }
        lemma_pow2_pos(d as nat);
        lemma_pow2_adds(d as nat, e2 as nat);
        assert(m1 as nat * pow2(d as nat) < 0x2_0000_0000_0000) by (nonlinear_arith)
            requires
                m1 < 0x100_0000,
                0 < pow2(d as nat) <= 0x200_0000,
        ;
        lemma_u64_shl_is_mul(m1 as u64, d);
        assert(a == (m1 as nat * pow2(d as nat)) * pow2(e2 as nat)) by (nonlinear_arith)
            requires
                a == m1 as nat * pow2(e1 as nat),
                pow2(e1 as nat) == pow2(d as nat) * pow2(e2 as nat),
        ;
    }
    let x: u64 = (m1 as u64) << d;
    let y: u64 = m2 as u64;
    assert(up(e2 as int) == pow2(e2 as nat) && up(-e2) == 1);
    if neg1 == neg2 {
        let sum: u64 = x + y;
        assert(a + b == sum as nat * pow2(e2 as nat)) by (nonlinear_arith)
            requires
                a == x as nat * pow2(e2 as nat),
                b == y as nat * pow2(e2 as nat),
                sum == x + y,
        ;
        let r: Single = round_ratio(neg1, sum, 1, e2 as i64);
        proof {
            if a + b == 0 {
                assert(Number::round_mag(0, 1) == 0) by {
                    crate::number::lemma_round_small(0, 1);
                }
                lemma_pow2_pos(277);
            }
        }
        r
    } else if x == y {
        assert(a == b);
        proof {
            lemma_pow2_pos(277);
            assert(0 * pow2(0) == 0);
        }
        assemble(false, 0, 0)
    } else if x > y {
        let diff: u64 = x - y;
        assert(a - b == diff as nat * pow2(e2 as nat) && a > b) by (nonlinear_arith)
            requires
                a == x as nat * pow2(e2 as nat),
                b == y as nat * pow2(e2 as nat),
                diff == x - y,
                x > y,
                pow2(e2 as nat) > 0,
        ;
        round_ratio(neg1, diff, 1, e2 as i64)
    } else {
        let diff: u64 = y - x;
        assert(b - a == diff as nat * pow2(e2 as nat) && b > a) by (nonlinear_arith)
            requires
                a == x as nat * pow2(e2 as nat),
                b == y as nat * pow2(e2 as nat),
                diff == y - x,
                y > x,
                pow2(e2 as nat) > 0,
        ;
        round_ratio(neg2, diff, 1, e2 as i64)
    }
}

proof fn lemma_plus_commutes(a: Number, b: Number)
    ensures
        a.plus(b) == b.plus(a),
{
}

/// With the greater exponent comes the greater magnitude.
proof fn lemma_exponent_decides(m1: nat, e1: nat, m2: nat, e2: nat)
    requires
        m1 < 0x100_0000,
        m2 >= 0x80_0000,
        e1 < e2,
    ensures
        m1 * pow2(e1) < m2 * pow2(e2),
{
    lemma_pow2_pos(e1);
    lemma_pow2_unfold(e2);
    if e1 + 1 < e2 {
        lemma_pow2_strictly_increases(e1, (e2 - 1) as nat);
    }
    assert(m1 * pow2(e1) < m2 * pow2(e2)) by (nonlinear_arith)
        requires
            m1 < 0x100_0000,
            m2 >= 0x80_0000,
            pow2(e2) == 2 * pow2((e2 - 1) as nat),
            0 < pow2(e1) <= pow2((e2 - 1) as nat),
    ;
}

/// Every finite magnitude lies below that of infinity.
pub proof fn lemma_finite_bound(m: nat, e: nat)
    requires
        m < 0x100_0000,
        e <= 253,
    ensures
        m * pow2(e) < pow2(277),
{
    lemma2_to64();
    lemma_pow2_adds(24, 253);
    lemma_pow2_pos(e);
    if e < 253 {
        lemma_pow2_strictly_increases(e, 253);
    }
    assert(m * pow2(e) < 0x100_0000 * pow2(253)) by (nonlinear_arith)
        requires
            m < 0x100_0000,
            0 < pow2(e) <= pow2(253),
    ;
}

/// Whether `m1 * 2^e1` lies below `m2 * 2^e2`.
fn parts_below(m1: u32, e1: u32, m2: u32, e2: u32) -> (b: bool)
    requires
        m1 < 0x100_0000,
        m2 < 0x100_0000,
        e1 > 0 ==> m1 >= 0x80_0000,
        e2 > 0 ==> m2 >= 0x80_0000,
    ensures
        b == (m1 as nat * pow2(e1 as nat) < m2 as nat * pow2(e2 as nat)),
{
    if e1 < e2 {
        proof {
            lemma_exponent_decides(m1 as nat, e1 as nat, m2 as nat, e2 as nat);
        }
        true
    } else if e2 < e1 {
        proof {
            lemma_exponent_decides(m2 as nat, e2 as nat, m1 as nat, e1 as nat);
        }
        false
    } else {
        proof {
            lemma_pow2_pos(e1 as nat);
            let p = pow2(e1 as nat);
            assert(m1 < m2 <==> m1 as nat * p < m2 as nat * p) by (nonlinear_arith)
                requires
                    p > 0,
            ;
        }
        m1 < m2
    }
}

impl Single {
    fn parts(self) -> (p: Parts)
        ensures
            p.of(self@),
    {
        let neg: bool = self.bits >= 0x8000_0000;
        let body: u32 = self.bits % 0x8000_0000;
        let exponent: u32 = body / 0x80_0000;
        let fraction: u32 = body % 0x80_0000;
        proof {
            lemma2_to64();
            assert(fraction as nat * pow2(0) == fraction);
        }
        if exponent == 255 {
            if fraction == 0 {
                Parts::Infinite { neg }
            } else {
                Parts::Nan
            }
        } else if exponent == 0 {
            Parts::Finite { neg, m: fraction, e: 0 }
        } else {
            Parts::Finite { neg, m: 0x80_0000 + fraction, e: exponent - 1 }
        }
    }

    fn nan() -> (r: Single)
        ensures
            r@ == Number::Nan,
    {
        Single { bits: 0x7FC0_0000 }
    }

    fn infinite(neg: bool) -> (r: Single)
        ensures
            r@ == (Number::Infinite { neg }),
    {
        if neg {
            Single { bits: 0xFF80_0000 }
        } else {
            Single { bits: 0x7F80_0000 }
        }
    }

    /// The number nearest to `num / den`.
    pub fn ratio(num: u32, den: u32) -> (r: Single)
        requires
            num < 0x100_0000,
            0 < den < 0x100_0000,
        ensures
            r@ == Number::ratio(num as nat, den as nat),
    {
        assert(up(149) == pow2(149) && up(-149) == 1);
        round_ratio(false, num as u64, den as u64, 149)
    }

    /// The number with the other sign.
    pub fn negated(self) -> (r: Single)
        ensures
            r@ == self@.negated(),
    {
        if self.bits >= 0x8000_0000 {
            Single { bits: self.bits - 0x8000_0000 }
        } else {
            Single { bits: self.bits + 0x8000_0000 }
        }
    }

    /// `self + other`.
    pub fn plus(self, other: Single) -> (r: Single)
        ensures
            r@ == self@.plus(other@),
    {
        match self.parts() {
            Parts::Finite { neg, m, e } => match other.parts() {
                Parts::Finite { neg: neg2, m: m2, e: e2 } => {
                    if e >= e2 {
                        add_parts(neg, m, e, neg2, m2, e2)
                    } else {
                        proof {
                            lemma_plus_commutes(self@, other@);
                        }
                        add_parts(neg2, m2, e2, neg, m, e)
                    }
                },
                Parts::Infinite { neg: neg2 } => Single::infinite(neg2),
                Parts::Nan => Single::nan(),
            },
            Parts::Infinite { neg } => match other.parts() {
                Parts::Finite { .. } => Single::infinite(neg),
                Parts::Infinite { neg: neg2 } => if neg == neg2 {
                    Single::infinite(neg)
                } else {
                    Single::nan()
                },
                Parts::Nan => Single::nan(),
            },
            Parts::Nan => Single::nan(),
        }
    }

    /// `self - other`.
    pub fn minus(self, other: Single) -> (r: Single)
        ensures
            r@ == self@.minus(other@),
    {
        self.plus(other.negated())
    }

    /// `self * other`.
    pub fn times(self, other: Single) -> (r: Single)
        ensures
            r@ == self@.times(other@),
    {
        match self.parts() {
            Parts::Finite { neg, m, e } => {
                proof {
                    lemma_pow2_pos(e as nat);
                    assert(m == 0 <==> m as nat * pow2(e as nat) == 0) by (nonlinear_arith)
                        requires
                            pow2(e as nat) > 0,
                    ;
                }
                match other.parts() {
                    Parts::Finite { neg: neg2, m: m2, e: e2 } => {
                        assert(m as nat * m2 as nat <= 0xFF_FFFF * 0xFF_FFFF) by (nonlinear_arith)
                            requires
                                m <= 0xFF_FFFF,
                                m2 <= 0xFF_FFFF,
                        ;
                        let prod: u64 = m as u64 * m2 as u64;
                        proof {
                            lemma_times_parts(m as nat, e as nat, m2 as nat, e2 as nat);
                        }
                        round_ratio(neg != neg2, prod, 1, e as i64 + e2 as i64 - 149)
                    },
                    Parts::Infinite { neg: neg2 } => if m == 0 {
                        Single::nan()
                    } else {
                        Single::infinite(neg != neg2)
                    },
                    Parts::Nan => Single::nan(),
                }
            },
            Parts::Infinite { neg } => match other.parts() {
                Parts::Finite { neg: neg2, m: m2, e: e2 } => {
                    proof {
                        lemma_pow2_pos(e2 as nat);
                        assert(m2 == 0 <==> m2 as nat * pow2(e2 as nat) == 0) by (nonlinear_arith)
                            requires
                                pow2(e2 as nat) > 0,
                        ;
                    }
                    if m2 == 0 {
                        Single::nan()
                    } else {
                        Single::infinite(neg != neg2)
                    }
                },
                Parts::Infinite { neg: neg2 } => Single::infinite(neg != neg2),
                Parts::Nan => Single::nan(),
            },
            Parts::Nan => Single::nan(),
        }
    }

    /// `self / other`.
    pub fn over(self, other: Single) -> (r: Single)
        ensures
            r@ == self@.over(other@),
    {
        match self.parts() {
            Parts::Finite { neg, m, e } => match other.parts() {
                Parts::Finite { neg: neg2, m: m2, e: e2 } => {
                    proof {
                        lemma_pow2_pos(e as nat);
                        lemma_pow2_pos(e2 as nat);
                        assert(m == 0 <==> m as nat * pow2(e as nat) == 0) by (nonlinear_arith)
                            requires
                                pow2(e as nat) > 0,
                        ;
                        assert(m2 == 0 <==> m2 as nat * pow2(e2 as nat) == 0) by (nonlinear_arith)
                            requires
                                pow2(e2 as nat) > 0,
                        ;
                    }
                    if m2 > 0 {
                        proof {
                            lemma_over_parts(m as nat, e as nat, m2 as nat, e2 as nat);
                        }
                        round_ratio(
                            neg != neg2,
                            m as u64,
                            m2 as u64,
                            e as i64 + 149 - e2 as i64,
                        )
                    } else if m > 0 {
                        Single::infinite(neg != neg2)
                    } else {
                        Single::nan()
                    }
                },
                Parts::Infinite { neg: neg2 } => {
                    proof {
                        lemma2_to64();
                        lemma_pow2_pos(277);
                        assert(0 * pow2(0) == 0);
                    }
                    assemble(neg != neg2, 0, 0)
                },
                Parts::Nan => Single::nan(),
            },
            Parts::Infinite { neg } => match other.parts() {
                Parts::Finite { neg: neg2, .. } => Single::infinite(neg != neg2),
                _ => Single::nan(),
            },
            Parts::Nan => Single::nan(),
        }
    }

    /// `self < other`.
    pub fn below(self, other: Single) -> (b: bool)
        ensures
            b == self@.below(other@),
    {
        proof {
            lemma_pow2_pos(277);
        }
        match self.parts() {
            Parts::Finite { neg, m, e } => {
                proof {
                    lemma_finite_bound(m as nat, e as nat);
                    lemma_pow2_pos(e as nat);
                    assert(m == 0 <==> m as nat * pow2(e as nat) == 0) by (nonlinear_arith)
                        requires
                            pow2(e as nat) > 0,
                    ;
                }
                match other.parts() {
                    Parts::Finite { neg: neg2, m: m2, e: e2 } => {
                        proof {
                            lemma_pow2_pos(e2 as nat);
                            assert(m2 == 0 <==> m2 as nat * pow2(e2 as nat) == 0)
                                by (nonlinear_arith)
                                requires
                                    pow2(e2 as nat) > 0,
                            ;
                        }
                        if neg && neg2 {
                            parts_below(m2, e2, m, e)
                        } else if neg {
                            m > 0 || m2 > 0
                        } else if neg2 {
                            false
                        } else {
                            parts_below(m, e, m2, e2)
                        }
                    },
                    Parts::Infinite { neg: neg2 } => !neg2,
                    Parts::Nan => false,
                }
            },
            Parts::Infinite { neg } => match other.parts() {
                Parts::Finite { neg: _, m: m2, e: e2 } => {
                    proof {
                        lemma_finite_bound(m2 as nat, e2 as nat);
                    }
                    neg
                },
                Parts::Infinite { neg: neg2 } => neg && !neg2,
                Parts::Nan => false,
            },
            Parts::Nan => false,
        }
    }

    /// `self`, brought to the nearer bound where it lies outside of `low..=high`.
    pub fn clamped(self, low: Single, high: Single) -> (r: Single)
        ensures
            r@ == self@.clamped(low@, high@),
    {
        if self.below(low) {
            low
        } else if high.below(self) {
            high
        } else {
            self
        }
    }

    /// The whole part as a 16-bit count, brought into range; 0 where there is no number.
    pub fn count(self) -> (c: u16)
        ensures
            c == self@.count(),
    {
        match self.parts() {
            Parts::Finite { neg, m, e } => {
                if neg {
                    return 0;
                }
                if e >= 149 {
                    proof {
                        lemma_count_large(m as nat, e as nat);
                    }
                    return u16::MAX;
                }
                let shift: u32 = 149 - e;
                proof {
                    lemma_count_shift(m as nat, e as nat);
                }
                if shift >= 24 {
                    return 0;
                }
                proof {
                    lemma_u32_shr_is_div(m, shift);
                }
                let whole: u32 = m >> shift;
                if whole > 0xFFFF {
                    u16::MAX
                } else {
                    whole as u16
                }
            },
            Parts::Infinite { neg } => if neg {
                0
            } else {
                u16::MAX
            },
            Parts::Nan => 0,
        }
    }
}

proof fn lemma_times_parts(m1: nat, e1: nat, m2: nat, e2: nat)
    ensures
        Number::round_mag((m1 * pow2(e1)) * (m2 * pow2(e2)), Number::one()) == Number::round_mag(
            (m1 * m2) * up(e1 + e2 - 149),
            1 * up(-(e1 + e2 - 149)),
        ),
{
    lemma_pow2_adds(e1, e2);
    assert((m1 * pow2(e1)) * (m2 * pow2(e2)) == (m1 * m2) * pow2(e1 + e2)) by (nonlinear_arith)
        requires
            pow2(e1 + e2) == pow2(e1) * pow2(e2),
    ;
    assert(Number::one() == 1 * pow2(149));
    lemma_cancel(m1 * m2, 1, e1 + e2, 149);
}

proof fn lemma_over_parts(m1: nat, e1: nat, m2: nat, e2: nat)
    requires
        m2 > 0,
    ensures
        Number::round_mag((m1 * pow2(e1)) * Number::one(), m2 * pow2(e2)) == Number::round_mag(
            m1 * up(e1 + 149 - e2),
            m2 * up(-(e1 + 149 - e2)),
        ),
{
    lemma_pow2_adds(e1, 149);
    assert((m1 * pow2(e1)) * pow2(149) == m1 * pow2(e1 + 149)) by (nonlinear_arith)
        requires
            pow2(e1 + 149) == pow2(e1) * pow2(149),
    ;
    lemma_cancel(m1, m2, e1 + 149, e2);
}

proof fn lemma_count_large(m: nat, e: nat)
    requires
        m >= 0x80_0000,
        e >= 149,
    ensures
        m * pow2(e) / Number::one() > u16::MAX,
{
    let d = (e - 149) as nat;
    lemma_pow2_adds(d, 149);
    lemma_pow2_pos(d);
    lemma_pow2_pos(149);
    assert(m * pow2(e) == (m * pow2(d)) * pow2(149)) by (nonlinear_arith)
        requires
            pow2(e) == pow2(d) * pow2(149),
    ;
    lemma_div_by_multiple((m * pow2(d)) as int, pow2(149) as int);
    assert(m * pow2(d) >= m) by (nonlinear_arith)
        requires
            pow2(d) >= 1,
    ;
}

/// The whole part of `m * 2^e` units.
pub proof fn lemma_count_shift(m: nat, e: nat)
    requires
        m < 0x100_0000,
        e <= 149,
    ensures
        m * pow2(e) / Number::one() == m / pow2((149 - e) as nat),
        149 - e >= 24 ==> m * pow2(e) / Number::one() == 0,
{
    let d = (149 - e) as nat;
    lemma2_to64();
    lemma_pow2_adds(d, e);
    lemma_pow2_pos(d);
    lemma_pow2_pos(e);
    assert(m * pow2(e) == pow2(e) * m) by (nonlinear_arith);
    assert(pow2(149) == pow2(e) * pow2(d)) by (nonlinear_arith)
        requires
            pow2(149) == pow2(d) * pow2(e),
    ;
    lemma_truncate_common(m, pow2(d), pow2(e));
    if d >= 24 {
        if d > 24 {
            lemma_pow2_strictly_increases(24, d);
        }
        lemma_fundamental_div_mod_converse(m as int, pow2(d) as int, 0, m as int);
    }
}

/// A common factor leaves a quotient as it is.
proof fn lemma_truncate_common(a: nat, b: nat, c: nat)
    requires
        b > 0,
        c > 0,
    ensures
        (c * a) / (c * b) == a / b,
{
    lemma_fundamental_div_mod(a as int, b as int);
    let q: int = a as int / b as int;
    let r: int = a as int % b as int;
    assert(c * a == q * (c * b) + c * r && 0 <= c * r < c * b) by (nonlinear_arith)
        requires
            a == b * q + r,
            0 <= r < b,
            c > 0,
    ;
    lemma_fundamental_div_mod_converse((c * a) as int, (c * b) as int, q, c * r);
}

/// A finite value is its own rounding, and it lies below infinity.
pub proof fn lemma_finite_exact(s: Single)
    requires
        s@ is Finite,
    ensures
        Number::round_mag(s@->mag, 1) == s@->mag,
        s@->mag < pow2(277),
{
    lemma2_to64();
    let body = s.bits as nat % 0x8000_0000;
    let exponent = body / 0x80_0000;
    let fraction = body % 0x80_0000;
    if exponent == 0 {
        assert(fraction * pow2(0) == fraction);
        crate::number::lemma_round_exact(fraction, 0);
        lemma_finite_bound(fraction, 0);
    } else {
        crate::number::lemma_round_exact(0x80_0000 + fraction, (exponent - 1) as nat);
        lemma_finite_bound(0x80_0000 + fraction, (exponent - 1) as nat);
    }
}

/// The encodings of the finite numbers from 0 on count upwards: each one is a gap above the one
/// before it, and the gap is `2^-149`, doubled every 2^23 encodings after the first 2^24. The sign
/// bit turns the sign round.
pub proof fn law_encoding(bits: u32)
    requires
        bits < 0x7F7F_FFFF,
    ensures
        ({
            let here = (Single { bits })@;
            let next = (Single { bits: (bits + 1) as u32 })@;
            let below = (Single { bits: (bits + 0x8000_0000) as u32 })@;
            let e = bits as nat / 0x80_0000;
            &&& here is Finite
            &&& next is Finite
            &&& next.place() - here.place() == if e == 0 {
                1int
            } else {
                pow2((e - 1) as nat) as int
            }
            &&& below is Finite
            &&& below.place() == -here.place()
            &&& bits == 0 ==> here.place() == 0
        }),
{
    lemma2_to64();
    let e = bits as nat / 0x80_0000;
    let f = bits as nat % 0x80_0000;
    if e > 0 {
        let g = pow2((e - 1) as nat);
        lemma_pow2_unfold(e);
        assert((0x80_0000 + f + 1) * g == (0x80_0000 + f) * g + g) by (nonlinear_arith);
        if f == 0x7F_FFFF {
            assert((0x80_0000 + 0) * pow2(e) == 0x100_0000 * g) by (nonlinear_arith)
                requires
                    pow2(e) == 2 * g,
            ;
        }
    } else if f == 0x7F_FFFF {
        assert((0x80_0000 + 0) * pow2(0) == 0x80_0000) by (nonlinear_arith)
            requires
                pow2(0) == 1,
        ;
    }
}

/// One has the encoding 0x3F80_0000. The greatest exponent is that of what is infinite or no
/// number.
pub proof fn law_encoding_marks(bits: u32)
    ensures
        (Single { bits: 0x3F80_0000 })@ == (Number::Finite { neg: false, mag: Number::one() }),
        (Single { bits: 0x7F80_0000 })@ == (Number::Infinite { neg: false }),
        (Single { bits: 0xFF80_0000 })@ == (Number::Infinite { neg: true }),
        0x7F80_0000 < bits < 0x8000_0000 || bits > 0xFF80_0000 ==> (Single { bits })@
            == Number::Nan,
{
    lemma2_to64();
    lemma_pow2_adds(23, 126);
}

} // verus!
