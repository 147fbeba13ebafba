//! The numbers that single-precision arithmetic computes with, and how it rounds.
//!
//! A finite single-precision number is a whole multiple of 2^-149, so its magnitude is modelled
//! by that multiple: a natural number counted in units of 2^-149.

use vstd::arithmetic::div_mod::*;
use vstd::arithmetic::mul::*;
use vstd::arithmetic::power2::*;
use vstd::prelude::*;

verus! {

/// What a single-precision value stands for.
pub enum Number {
    /// `mag` units of 2^-149, below zero where `neg` holds. Zero comes with either sign.
    Finite { neg: bool, mag: nat },
    /// Beyond the largest finite magnitude.
    Infinite { neg: bool },
    /// The result of an operation that has none.
    Nan,
}

impl Number {
    /// The least `k` such that `num / den` lies below `2^(24 + k)`: the gap between neighbouring
    /// numbers around `num / den` is `2^k`.
    pub open spec fn quantum(num: nat, den: nat) -> nat
        decreases num - den,
    {
        if den == 0 || num < 0x100_0000 * den {
            0
        } else {
            1 + Self::quantum(num, 2 * den)
        }
    }

    /// The whole number nearest to `num / den`; of two equally near, the even one.
    pub open spec fn nearest_even(num: nat, den: nat) -> nat {
        let q = num / den;
        let r = num % den;
        if 2 * r < den || (2 * r == den && q % 2 == 0) {
            q
        } else {
            q + 1
        }
    }

    /// The magnitude nearest to `num / den` units that 24 significant bits can hold.
    pub open spec fn round_mag(num: nat, den: nat) -> nat {
        let k = Self::quantum(num, den);
        Self::nearest_even(num, den * pow2(k)) * pow2(k)
    }

    /// `num / den` units, rounded to a single-precision number. From 2^128 on, which is 2^277
    /// units, there is only infinity.
    pub open spec fn round(neg: bool, num: nat, den: nat) -> Number {
        let mag = Self::round_mag(num, den);
        if mag >= pow2(277) {
            Number::Infinite { neg }
        } else {
            Number::Finite { neg, mag }
        }
    }

    /// How many units make one.
    pub open spec fn one() -> nat {
        pow2(149)
    }

    /// The quotient of two whole numbers.
    pub open spec fn ratio(num: nat, den: nat) -> Number {
        Self::round(false, num * Self::one(), den)
    }

    /// The units of a finite number with its sign.
    pub open spec fn signed(neg: bool, mag: nat) -> int {
        if neg {
            -(mag as int)
        } else {
            mag as int
        }
    }

    /// Where a number stands in the order from minus to plus infinity.
    pub open spec fn place(self) -> int {
        match self {
            Number::Finite { neg, mag } => Self::signed(neg, mag),
            Number::Infinite { neg } => Self::signed(neg, pow2(277)),
            Number::Nan => 0,
        }
    }

    /// Whether `self` lies strictly below `other`. `Nan` is neither below nor above anything.
    pub open spec fn below(self, other: Number) -> bool {
        self != Number::Nan && other != Number::Nan && self.place() < other.place()
    }

    /// `self`, brought to the nearer bound where it lies outside of `low..=high`.
    pub open spec fn clamped(self, low: Number, high: Number) -> Number {
        if self.below(low) {
            low
        } else if high.below(self) {
            high
        } else {
            self
        }
    }

    /// The number with the other sign.
    pub open spec fn negated(self) -> Number {
        match self {
            Number::Finite { neg, mag } => Number::Finite { neg: !neg, mag },
            Number::Infinite { neg } => Number::Infinite { neg: !neg },
            Number::Nan => Number::Nan,
        }
    }

    /// The rounded sum. A sum of zero is negative only where both terms are.
    pub open spec fn plus(self, other: Number) -> Number {
        match self {
            Number::Finite { neg, mag } => match other {
                Number::Finite { neg: neg2, mag: mag2 } => {
                    let sum = Self::signed(neg, mag) + Self::signed(neg2, mag2);
                    if sum == 0 {
                        Number::Finite { neg: neg && neg2, mag: 0 }
                    } else if sum > 0 {
                        Self::round(false, sum as nat, 1)
                    } else {
                        Self::round(true, (-sum) as nat, 1)
                    }
                },
                _ => other,
            },
            Number::Infinite { neg } => match other {
                Number::Infinite { neg: neg2 } if neg != neg2 => Number::Nan,
                Number::Nan => Number::Nan,
                _ => self,
            },
            Number::Nan => Number::Nan,
        }
    }

    /// The rounded difference.
    pub open spec fn minus(self, other: Number) -> Number {
        self.plus(other.negated())
    }

    /// The rounded product.
    pub open spec fn times(self, other: Number) -> Number {
        match self {
            Number::Finite { neg, mag } => match other {
                Number::Finite { neg: neg2, mag: mag2 } => Self::round(
                    neg != neg2,
                    mag * mag2,
                    Self::one(),
                ),
                Number::Infinite { neg: neg2 } => if mag == 0 {
                    Number::Nan
                } else {
                    Number::Infinite { neg: neg != neg2 }
                },
                Number::Nan => Number::Nan,
            },
            Number::Infinite { neg } => match other {
                Number::Finite { neg: neg2, mag: mag2 } => if mag2 == 0 {
                    Number::Nan
                } else {
                    Number::Infinite { neg: neg != neg2 }
                },
                Number::Infinite { neg: neg2 } => Number::Infinite { neg: neg != neg2 },
                Number::Nan => Number::Nan,
            },
            Number::Nan => Number::Nan,
        }
    }

    /// The rounded quotient.
    pub open spec fn over(self, other: Number) -> Number {
        match self {
            Number::Finite { neg, mag } => match other {
                Number::Finite { neg: neg2, mag: mag2 } => if mag2 > 0 {
                    Self::round(neg != neg2, mag * Self::one(), mag2)
                } else if mag > 0 {
                    Number::Infinite { neg: neg != neg2 }
                } else {
                    Number::Nan
                },
                Number::Infinite { neg: neg2 } => Number::Finite { neg: neg != neg2, mag: 0 },
                Number::Nan => Number::Nan,
            },
            Number::Infinite { neg } => match other {
                Number::Finite { neg: neg2, .. } => Number::Infinite { neg: neg != neg2 },
                _ => Number::Nan,
            },
            Number::Nan => Number::Nan,
        }
    }

    /// The whole part as a 16-bit count: what lies below the range becomes 0, what lies above it
    /// becomes the greatest count, and `Nan` becomes 0.
    pub open spec fn count(self) -> u16 {
        match self {
            Number::Finite { neg, mag } => if neg {
                0
            } else if mag / Self::one() > u16::MAX {
                u16::MAX
            } else {
                (mag / Self::one()) as u16
            },
            Number::Infinite { neg } => if neg {
                0
            } else {
                u16::MAX
            },
            Number::Nan => 0,
        }
    }
}

/// A quantum is enough, and none below it is.
pub proof fn lemma_quantum_bounds(num: nat, den: nat)
    requires
        den > 0,
    ensures
        num < 0x100_0000 * (den * pow2(Number::quantum(num, den))),
        Number::quantum(num, den) > 0 ==> num >= 0x80_0000 * (den * pow2(
            Number::quantum(num, den),
        )),
    decreases num - den,
{
    lemma2_to64();
    if num < 0x100_0000 * den {
        assert(den * pow2(0) == den) by (nonlinear_arith)
            requires
                pow2(0) == 1,
        ;
    } else {
        lemma_quantum_bounds(num, 2 * den);
        let k = Number::quantum(num, 2 * den);
        lemma_pow2_unfold(k + 1);
        assert(den * pow2(k + 1) == (2 * den) * pow2(k)) by (nonlinear_arith)
            requires
                pow2(k + 1) == 2 * pow2(k),
        ;
        if k == 0 {
            assert((2 * den) * pow2(0) == 2 * den) by (nonlinear_arith)
                requires
                    pow2(0) == 1,
            ;
        }
    }
}

/// Any exponent that is enough is at least the quantum.
proof fn lemma_quantum_least(num: nat, den: nat, j: nat)
    requires
        den > 0,
        num < 0x100_0000 * (den * pow2(j)),
    ensures
        Number::quantum(num, den) <= j,
{
    let k = Number::quantum(num, den);
    lemma_quantum_bounds(num, den);
    if k > j {
        lemma_pow2_unfold(k);
        if j < k - 1 {
            lemma_pow2_strictly_increases(j, (k - 1) as nat);
        }
        assert(0x80_0000 * (den * pow2(k)) >= 0x100_0000 * (den * pow2(j))) by (nonlinear_arith)
            requires
                pow2(k) == 2 * pow2((k - 1) as nat),
                pow2((k - 1) as nat) >= pow2(j),
                den > 0,
        ;
    }
}

proof fn lemma_quantum_scale(num: nat, den: nat, c: nat)
    requires
        den > 0,
        c > 0,
    ensures
        Number::quantum(c * num, c * den) == Number::quantum(num, den),
    decreases num - den,
{
    assert(c * den > 0) by (nonlinear_arith)
        requires
            c > 0,
            den > 0,
    ;
    assert(num < 0x100_0000 * den <==> c * num < 0x100_0000 * (c * den)) by (nonlinear_arith)
        requires
            c > 0,
    ;
    if !(num < 0x100_0000 * den) {
        lemma_quantum_scale(num, 2 * den, c);
        assert(c * (2 * den) == 2 * (c * den)) by (nonlinear_arith);
    }
}

proof fn lemma_nearest_scale(num: nat, den: nat, c: nat)
    requires
        den > 0,
        c > 0,
    ensures
        Number::nearest_even(c * num, c * den) == Number::nearest_even(num, den),
{
    lemma_fundamental_div_mod(num as int, den as int);
    let q: int = num as int / den as int;
    let r: int = num as int % den as int;
    assert(c * num == q * (c * den) + c * r) by (nonlinear_arith)
        requires
            num == den * q + r,
    ;
    assert(0 <= c * r < c * den) by (nonlinear_arith)
        requires
            0 <= r < den,
            c > 0,
    ;
    lemma_fundamental_div_mod_converse((c * num) as int, (c * den) as int, q, c * r);
    assert(2 * r < den <==> 2 * (c * r) < c * den) by (nonlinear_arith)
        requires
            c > 0,
    ;
    assert(2 * r == den <==> 2 * (c * r) == c * den) by (nonlinear_arith)
        requires
            c > 0,
    ;
}

/// Rounding depends on the ratio alone.
pub proof fn lemma_round_scale(num: nat, den: nat, c: nat)
    requires
        den > 0,
        c > 0,
    ensures
        Number::round_mag(c * num, c * den) == Number::round_mag(num, den),
{
    lemma_quantum_scale(num, den, c);
    let k = Number::quantum(num, den);
    lemma_pow2_pos(k);
    assert((c * den) * pow2(k) == c * (den * pow2(k))) by (nonlinear_arith);
    assert(den * pow2(k) > 0) by (nonlinear_arith)
        requires
            den > 0,
            pow2(k) > 0,
    ;
    lemma_nearest_scale(num, den * pow2(k), c);
}

proof fn lemma_quantum_normal(num: nat, den: nat, s: nat)
    requires
        den > 0,
        0x80_0000 * den <= num < 0x100_0000 * den,
    ensures
        Number::quantum(num * pow2(s), den) == s,
{
    lemma_pow2_pos(s);
    assert(num * pow2(s) < 0x100_0000 * (den * pow2(s))) by (nonlinear_arith)
        requires
            num < 0x100_0000 * den,
            pow2(s) > 0,
    ;
    lemma_quantum_least(num * pow2(s), den, s);
    let k = Number::quantum(num * pow2(s), den);
    lemma_quantum_bounds(num * pow2(s), den);
    if k < s {
        lemma_pow2_unfold(s);
        if k < s - 1 {
            lemma_pow2_strictly_increases(k, (s - 1) as nat);
        }
        assert(num * pow2(s) >= 0x100_0000 * (den * pow2(k))) by (nonlinear_arith)
            requires
                num >= 0x80_0000 * den,
                pow2(s) == 2 * pow2((s - 1) as nat),
                pow2((s - 1) as nat) >= pow2(k),
                den > 0,
        ;
    }
}

/// Rounding a ratio whose whole part has exactly 24 bits.
pub proof fn lemma_round_normal(num: nat, den: nat, s: nat)
    requires
        den > 0,
        0x80_0000 * den <= num < 0x100_0000 * den,
    ensures
        Number::round_mag(num * pow2(s), den) == Number::nearest_even(num, den) * pow2(s),
{
    lemma_quantum_normal(num, den, s);
    lemma_pow2_pos(s);
    assert(num * pow2(s) == pow2(s) * num) by (nonlinear_arith);
    assert(den * pow2(s) == pow2(s) * den) by (nonlinear_arith);
    lemma_nearest_scale(num, den, pow2(s));
}

/// Rounding a ratio below 2^24 is rounding to a whole number of units.
pub proof fn lemma_round_small(num: nat, den: nat)
    requires
        den > 0,
        num < 0x100_0000 * den,
    ensures
        Number::round_mag(num, den) == Number::nearest_even(num, den),
{
    lemma2_to64();
    assert(den * pow2(0) == den) by (nonlinear_arith)
        requires
            pow2(0) == 1,
    ;
    assert(Number::nearest_even(num, den) * pow2(0) == Number::nearest_even(num, den))
        by (nonlinear_arith)
        requires
            pow2(0) == 1,
    ;
}

/// What 24 significant bits hold is kept.
pub proof fn lemma_round_exact(m: nat, s: nat)
    requires
        m < 0x100_0000,
    ensures
        Number::round_mag(m * pow2(s), 1) == m * pow2(s),
{
    let num = m * pow2(s);
    lemma_pow2_pos(s);
    assert(num < 0x100_0000 * (1 * pow2(s))) by (nonlinear_arith)
        requires
            m < 0x100_0000,
            num == m * pow2(s),
            pow2(s) > 0,
    ;
    lemma_quantum_least(num, 1, s);
    let k = Number::quantum(num, 1);
    let d = (s - k) as nat;
    lemma_pow2_adds(k, d);
    lemma_pow2_pos(k);
    let q = m * pow2(d);
    assert(num == q * pow2(k)) by (nonlinear_arith)
        requires
            num == m * pow2(s),
            q == m * pow2(d),
            pow2(s) == pow2(k) * pow2(d),
    ;
    assert(num as int == q * pow2(k) as int + 0);
    lemma_fundamental_div_mod_converse(num as int, pow2(k) as int, q as int, 0);
    assert(1 * pow2(k) == pow2(k));
}

proof fn lemma_nearest_monotone(a: nat, b: nat, den: nat)
    requires
        den > 0,
        a <= b,
    ensures
        Number::nearest_even(a, den) <= Number::nearest_even(b, den),
{
    lemma_div_is_ordered(a as int, b as int, den as int);
    lemma_fundamental_div_mod(a as int, den as int);
    lemma_fundamental_div_mod(b as int, den as int);
    if a / den == b / den {
        assert(a % den <= b % den);
    }
}

/// Rounding to a whole number crosses no whole number.
pub proof fn lemma_nearest_bounds(num: nat, den: nat, lo: nat, hi: nat)
    requires
        den > 0,
        lo * den <= num,
        num <= hi * den,
    ensures
        lo <= Number::nearest_even(num, den) <= hi,
{
    assert((lo * den) as int == lo * den + 0);
    lemma_fundamental_div_mod_converse((lo * den) as int, den as int, lo as int, 0);
    lemma_fundamental_div_mod_converse((hi * den) as int, den as int, hi as int, 0);
    lemma_nearest_monotone(lo * den, num, den);
    lemma_nearest_monotone(num, hi * den, den);
}

proof fn lemma_round_monotone_same(a: nat, b: nat, den: nat)
    requires
        den > 0,
        a <= b,
    ensures
        Number::round_mag(a, den) <= Number::round_mag(b, den),
{
    let j = Number::quantum(a, den);
    let k = Number::quantum(b, den);
    lemma_quantum_bounds(a, den);
    lemma_quantum_bounds(b, den);
    lemma_quantum_least(a, den, k);
    lemma_pow2_pos(j);
    lemma_pow2_pos(k);
    assert(den * pow2(j) > 0) by (nonlinear_arith)
        requires
            den > 0,
            pow2(j) > 0,
    ;
    assert(den * pow2(k) > 0) by (nonlinear_arith)
        requires
            den > 0,
            pow2(k) > 0,
    ;
    if j == k {
        lemma_nearest_monotone(a, b, den * pow2(k));
        lemma_mul_inequality(
            Number::nearest_even(a, den * pow2(k)) as int,
            Number::nearest_even(b, den * pow2(k)) as int,
            pow2(k) as int,
        );
    } else {
        lemma_nearest_bounds(a, den * pow2(j), 0, 0x100_0000);
        let q = Number::nearest_even(b, den * pow2(k));
        lemma_nearest_bounds(b, den * pow2(k), 0x80_0000, 0x100_0000);
        lemma_pow2_unfold(k);
        if j < k - 1 {
            lemma_pow2_strictly_increases(j, (k - 1) as nat);
        }
        let p = Number::nearest_even(a, den * pow2(j));
        assert(p * pow2(j) <= q * pow2(k)) by (nonlinear_arith)
            requires
                p <= 0x100_0000,
                q >= 0x80_0000,
                pow2(k) == 2 * pow2((k - 1) as nat),
                pow2((k - 1) as nat) >= pow2(j),
                pow2(j) > 0,
        ;
    }
}

/// A greater ratio never rounds to a smaller number.
pub proof fn lemma_round_monotone(n1: nat, d1: nat, n2: nat, d2: nat)
    requires
        d1 > 0,
        d2 > 0,
        n1 * d2 <= n2 * d1,
    ensures
        Number::round_mag(n1, d1) <= Number::round_mag(n2, d2),
{
    lemma_round_scale(n1, d1, d2);
    lemma_round_scale(n2, d2, d1);
    assert(d2 * d1 == d1 * d2 && d2 * n1 == n1 * d2 && d1 * n2 == n2 * d1 && d1 * d2 > 0)
        by (nonlinear_arith)
        requires
            d1 > 0,
            d2 > 0,
    ;
    lemma_round_monotone_same(d2 * n1, d1 * n2, d1 * d2);
}

/// Rounding moves a magnitude by at most half the gap between its neighbours.
pub proof fn lemma_round_near(num: nat, j: nat)
    requires
        num < 0x100_0000 * pow2(j),
    ensures
        2 * (Number::round_mag(num, 1) - num) <= pow2(j),
        2 * (num - Number::round_mag(num, 1)) <= pow2(j),
{
    assert(1 * pow2(j) == pow2(j));
    lemma_round_err(num, 1, j);
    assert(Number::round_mag(num, 1) * 1 == Number::round_mag(num, 1));
}

/// What has been rounded is kept.
pub proof fn lemma_round_again(num: nat, den: nat)
    requires
        den > 0,
    ensures
        Number::round_mag(Number::round_mag(num, den), 1) == Number::round_mag(num, den),
{
    let (m, e) = law_round_fits(num, den);
    lemma_round_exact(m, e);
}

/// A number that the format can hold: not `Nan`, and infinite from 2^277 units on.
pub open spec fn is_held(x: Number) -> bool {
    match x {
        Number::Finite { mag, .. } => mag < pow2(277),
        Number::Infinite { .. } => true,
        Number::Nan => false,
    }
}

proof fn lemma_round_zero(den: nat)
    requires
        den > 0,
    ensures
        Number::round_mag(0, den) == 0,
{
    lemma_round_small(0, den);
    lemma_fundamental_div_mod_converse(0, den as int, 0, 0);
}

/// Where a rounded signed ratio stands.
spec fn settled(num: int, den: nat) -> int {
    if num >= 0 {
        Number::round(false, num as nat, den).place()
    } else {
        Number::round(true, (-num) as nat, den).place()
    }
}

proof fn lemma_settled_order(a: int, b: int, den: nat)
    requires
        den > 0,
        a <= b,
    ensures
        settled(a, den) <= settled(b, den),
        settled(0, den) == 0,
        -(pow2(277) as int) <= settled(a, den),
        settled(b, den) <= pow2(277),
{
    lemma_pow2_pos(277);
    lemma_round_zero(den);
    if a >= 0 {
        lemma_round_monotone_same(a as nat, b as nat, den);
    } else if b < 0 {
        lemma_round_monotone_same((-b) as nat, (-a) as nat, den);
    }
}

/// Adding the same number keeps the order.
pub proof fn lemma_plus_order(a: Number, b: Number, c: Number)
    requires
        is_held(a),
        is_held(b),
        is_held(c),
        a.place() <= b.place(),
        a.plus(c) != Number::Nan,
        b.plus(c) != Number::Nan,
    ensures
        a.plus(c).place() <= b.plus(c).place(),
        is_held(a.plus(c)),
        is_held(b.plus(c)),
{
    lemma_pow2_pos(277);
    if let Number::Finite { neg: nc, mag: mc } = c {
        let z = Number::signed(nc, mc);
        if a is Finite {
            assert(a.plus(c).place() == settled(a.place() + z, 1)) by {
                lemma_settled_order(0, 0, 1);
            }
            lemma_settled_order(a.place() + z, a.place() + z, 1);
        }
        if b is Finite {
            assert(b.plus(c).place() == settled(b.place() + z, 1)) by {
                lemma_settled_order(0, 0, 1);
            }
            lemma_settled_order(b.place() + z, b.place() + z, 1);
        }
        lemma_settled_order(a.place() + z, b.place() + z, 1);
    }
}

/// The product of two finite numbers stands where its rounded value does.
proof fn lemma_times_place(a: Number, c: Number)
    requires
        a is Finite,
        c is Finite,
    ensures
        a.times(c).place() == settled(a.place() * c.place(), Number::one()),
        is_held(a.times(c)),
{
    lemma_pow2_pos(149);
    lemma_round_zero(Number::one());
    lemma_pow2_pos(277);
    let ma = a->mag as int;
    let mc = c->mag as int;
    assert((-ma) * mc == -(ma * mc) && ma * (-mc) == -(ma * mc) && (-ma) * (-mc) == ma * mc)
        by (nonlinear_arith);
    assert(ma * mc >= 0) by (nonlinear_arith)
        requires
            ma >= 0,
            mc >= 0,
    ;
}

/// Multiplying with a number that is not negative keeps the order; with one that is not positive
/// it turns the order round.
pub proof fn lemma_times_order(a: Number, b: Number, c: Number)
    requires
        is_held(a),
        is_held(b),
        is_held(c),
        a.place() <= b.place(),
        a.times(c) != Number::Nan,
        b.times(c) != Number::Nan,
    ensures
        c.place() >= 0 ==> a.times(c).place() <= b.times(c).place(),
        c.place() <= 0 ==> a.times(c).place() >= b.times(c).place(),
        is_held(a.times(c)),
        is_held(b.times(c)),
{
    lemma_pow2_pos(149);
    lemma_pow2_pos(277);
    let one = Number::one();
    if c is Finite {
        let z = c.place();
        let x = a.place();
        let y = b.place();
        assert(z >= 0 ==> x * z <= y * z) by (nonlinear_arith)
            requires
                x <= y,
        ;
        assert(z <= 0 ==> x * z >= y * z) by (nonlinear_arith)
            requires
                x <= y,
        ;
        if a is Finite {
            lemma_times_place(a, c);
            lemma_settled_order(x * z, x * z, one);
        }
        if b is Finite {
            lemma_times_place(b, c);
            lemma_settled_order(y * z, y * z, one);
        }
        if z >= 0 {
            lemma_settled_order(x * z, y * z, one);
        }
        if z <= 0 {
            lemma_settled_order(y * z, x * z, one);
        }
    }
}

/// Multiplication does not ask for the order of its factors.
pub proof fn lemma_times_commutes(a: Number, b: Number)
    ensures
        a.times(b) == b.times(a),
{
    if a is Finite && b is Finite {
        assert(a->mag * b->mag == b->mag * a->mag) by (nonlinear_arith);
    }
}

/// Dividing by a positive number keeps the order.
pub proof fn lemma_over_order(a: Number, b: Number, c: Number)
    requires
        is_held(a),
        is_held(b),
        c is Finite,
        c.place() > 0,
        a.place() <= b.place(),
    ensures
        a.over(c).place() <= b.over(c).place(),
        is_held(a.over(c)),
        is_held(b.over(c)),
{
    lemma_pow2_pos(149);
    lemma_pow2_pos(277);
    let one = Number::one();
    let den = c->mag;
    lemma_round_zero(den);
    let x = a.place();
    let y = b.place();
    assert(x * one <= y * one) by (nonlinear_arith)
        requires
            x <= y,
    ;
    if a is Finite {
        let m = a->mag as int;
        assert((-m) * one == -(m * one) && m * one >= 0) by (nonlinear_arith)
            requires
                m >= 0,
        ;
        assert(a.over(c).place() == settled(x * one, den));
        lemma_settled_order(x * one, x * one, den);
    }
    if b is Finite {
        let m = b->mag as int;
        assert((-m) * one == -(m * one) && m * one >= 0) by (nonlinear_arith)
            requires
                m >= 0,
        ;
        assert(b.over(c).place() == settled(y * one, den));
        lemma_settled_order(y * one, y * one, den);
    }
    lemma_settled_order(x * one, y * one, den);
}

/// Counting keeps the order.
pub proof fn lemma_count_order(a: Number, b: Number)
    requires
        is_held(a),
        is_held(b),
        a.place() <= b.place(),
    ensures
        a.count() <= b.count(),
{
    lemma_pow2_pos(149);
    lemma_pow2_pos(277);
    let one = Number::one();
    lemma_fundamental_div_mod_converse(0, one as int, 0, 0);
    if a is Finite && b is Finite && a.place() > 0 {
        lemma_div_is_ordered(a.place(), b.place(), one as int);
    }
}

/// Clamping keeps the order.
pub proof fn lemma_clamped_order(a: Number, b: Number, low: Number, high: Number)
    requires
        is_held(a),
        is_held(b),
        is_held(low),
        is_held(high),
        low.place() <= high.place(),
        a.place() <= b.place(),
    ensures
        a.clamped(low, high).place() <= b.clamped(low, high).place(),
        is_held(a.clamped(low, high)),
        is_held(b.clamped(low, high)),
{
}

/// Rounding moves a ratio by at most half the gap between its neighbours.
pub proof fn lemma_round_err(num: nat, den: nat, j: nat)
    requires
        den > 0,
        num < 0x100_0000 * (den * pow2(j)),
    ensures
        2 * (Number::round_mag(num, den) * den - num) <= den * pow2(j),
        2 * (num - Number::round_mag(num, den) * den) <= den * pow2(j),
{
    lemma_quantum_least(num, den, j);
    let k = Number::quantum(num, den);
    lemma_pow2_pos(k);
    if k < j {
        lemma_pow2_strictly_increases(k, j);
    }
    let gap = (den * pow2(k)) as int;
    assert(0 < gap <= den * pow2(j)) by (nonlinear_arith)
        requires
            gap == den * pow2(k),
            den > 0,
            0 < pow2(k) <= pow2(j),
    ;
    lemma_fundamental_div_mod(num as int, gap);
    let q = num as int / gap;
    let near = Number::nearest_even(num, gap as nat);
    assert((q + 1) * gap == q * gap + gap && q * gap == gap * q) by (nonlinear_arith);
    assert((near * pow2(k)) * den == near * gap) by (nonlinear_arith)
        requires
            gap == den * pow2(k),
    ;
}

/// What lies below 2^(24 + j) units rounds to a finite number.
proof fn lemma_round_finite(num: nat, den: nat, j: nat)
    requires
        den > 0,
        num < 0x100_0000 * (den * pow2(j)),
        j <= 252,
    ensures
        Number::round_mag(num, den) < pow2(277),
{
    lemma2_to64();
    lemma_pow2_unfold(j + 1);
    lemma_pow2_adds(24, j);
    lemma_pow2_strictly_increases(24 + j, 277);
    lemma_round_exact(0x80_0000, j + 1);
    let top = 0x80_0000 * pow2(j + 1);
    assert(top == 0x100_0000 * pow2(j));
    assert(num * 1 <= top * den) by (nonlinear_arith)
        requires
            num < 0x100_0000 * (den * pow2(j)),
            top == 0x100_0000 * pow2(j),
    ;
    lemma_round_monotone(num, den, top, 1);
}

/// A sum is rounded by at most half the gap between the neighbours of the exact sum.
pub proof fn lemma_plus_near(a: Number, b: Number, j: nat)
    requires
        a is Finite,
        b is Finite,
        -0x100_0000 * pow2(j) < a.place() + b.place() < 0x100_0000 * pow2(j),
        j <= 252,
    ensures
        a.plus(b) is Finite,
        2 * (a.plus(b).place() - (a.place() + b.place())) <= pow2(j),
        2 * ((a.place() + b.place()) - a.plus(b).place()) <= pow2(j),
{
    let sum = a.place() + b.place();
    let size: nat = if sum >= 0 {
        sum as nat
    } else {
        (-sum) as nat
    };
    assert(1 * pow2(j) == pow2(j));
    lemma_pow2_pos(277);
    lemma_round_err(size, 1, j);
    lemma_round_finite(size, 1, j);
    assert(Number::round_mag(size, 1) * 1 == Number::round_mag(size, 1));
}

/// A product is rounded by at most half the gap between the neighbours of the exact product.
pub proof fn lemma_times_near(a: Number, b: Number, j: nat)
    requires
        a is Finite,
        b is Finite,
        -0x100_0000 * (Number::one() * pow2(j)) < a.place() * b.place() < 0x100_0000
            * (Number::one() * pow2(j)),
        j <= 252,
    ensures
        a.times(b) is Finite,
        2 * (a.times(b).place() * Number::one() - a.place() * b.place()) <= Number::one() * pow2(j),
        2 * (a.place() * b.place() - a.times(b).place() * Number::one()) <= Number::one() * pow2(j),
{
    let one = Number::one();
    lemma_pow2_pos(149);
    let ma = a->mag as int;
    let mb = b->mag as int;
    let size = (ma * mb) as nat;
    assert((-ma) * mb == -(ma * mb) && ma * (-mb) == -(ma * mb) && (-ma) * (-mb) == ma * mb && ma
        * mb >= 0) by (nonlinear_arith)
        requires
            ma >= 0,
            mb >= 0,
    ;
    lemma_round_err(size, one, j);
    lemma_round_finite(size, one, j);
    let r = Number::round_mag(size, one) as int;
    assert((-r) * one == -(r * one)) by (nonlinear_arith);
}

/// A quotient by a positive number is rounded by at most half the gap between the neighbours of
/// the exact quotient.
pub proof fn lemma_over_near(a: Number, b: Number, j: nat)
    requires
        a is Finite,
        b is Finite,
        b.place() > 0,
        -0x100_0000 * (b.place() * pow2(j)) < a.place() * Number::one() < 0x100_0000 * (b.place()
            * pow2(j)),
        j <= 252,
    ensures
        a.over(b) is Finite,
        2 * (a.over(b).place() * b.place() - a.place() * Number::one()) <= b.place() * pow2(j),
        2 * (a.place() * Number::one() - a.over(b).place() * b.place()) <= b.place() * pow2(j),
{
    let one = Number::one();
    lemma_pow2_pos(149);
    let ma = a->mag as int;
    let den = b->mag;
    let size = (ma * one) as nat;
    assert((-ma) * one == -(ma * one) && ma * one >= 0) by (nonlinear_arith)
        requires
            ma >= 0,
            one >= 0,
    ;
    lemma_round_err(size, den, j);
    lemma_round_finite(size, den, j);
    let r = Number::round_mag(size, den) as int;
    assert((-r) * den == -(r * den)) by (nonlinear_arith);
}

/// A fraction of one: `2^d` parts of `2^(149 - d)` units each.
pub proof fn lemma_part(d: nat)
    requires
        d <= 149,
    ensures
        Number::one() == pow2(d) * pow2((149 - d) as nat),
        pow2((149 - d) as nat) > 0,
{
    lemma_pow2_adds(d, (149 - d) as nat);
    lemma_pow2_pos((149 - d) as nat);
}

/// No number of 24 significant bits is nearer to a ratio than the one that it rounds to.
pub proof fn law_round_nearest(num: nat, den: nat, m: nat, e: nat)
    requires
        den > 0,
        m < 0x100_0000,
    ensures
        ({
            let r = Number::round_mag(num, den) * den - num;
            let y = (m * pow2(e)) * den - num;
            &&& r <= y || r <= -y
            &&& -r <= y || -r <= -y
        }),
{
    let k = Number::quantum(num, den);
    lemma_quantum_bounds(num, den);
    lemma_pow2_pos(k);
    let gap = (den * pow2(k)) as int;
    assert(gap > 0) by (nonlinear_arith)
        requires
            gap == den * pow2(k),
            den > 0,
            pow2(k) > 0,
    ;
    lemma_fundamental_div_mod(num as int, gap);
    let q = num as int / gap;
    let near = Number::nearest_even(num, gap as nat);
    assert((q + 1) * gap == q * gap + gap && q * gap == gap * q) by (nonlinear_arith);
    assert((near * pow2(k)) * den == near * gap) by (nonlinear_arith)
        requires
            gap == den * pow2(k),
    ;
    let y = (m * pow2(e)) * den;
    if e >= k {
        let d = (e - k) as nat;
        lemma_pow2_adds(k, d);
        let c = (m * pow2(d)) as int;
        assert(y == c * gap) by (nonlinear_arith)
            requires
                y == (m * pow2(e)) * den,
                pow2(e) == pow2(k) * pow2(d),
                gap == den * pow2(k),
                c == m * pow2(d),
        ;
        assert(c <= q ==> c * gap <= q * gap) by (nonlinear_arith)
            requires
                gap > 0,
        ;
        assert(c >= q + 1 ==> c * gap >= (q + 1) * gap) by (nonlinear_arith)
            requires
                gap > 0,
        ;
    } else {
        lemma_pow2_unfold(k);
        if e < k - 1 {
            lemma_pow2_strictly_increases(e, (k - 1) as nat);
        }
        lemma_pow2_pos(e);
        assert(y <= 0x80_0000 * gap) by (nonlinear_arith)
            requires
                y == (m * pow2(e)) * den,
                m < 0x100_0000,
                pow2(k) == 2 * pow2((k - 1) as nat),
                pow2(e) <= pow2((k - 1) as nat),
                gap == den * pow2(k),
                den > 0,
        ;
        assert(q >= 0x80_0000) by (nonlinear_arith)
            requires
                num >= 0x80_0000 * gap,
                num == gap * q + num as int % gap,
                num as int % gap < gap,
                gap > 0,
        ;
        assert(q * gap >= 0x80_0000 * gap) by (nonlinear_arith)
            requires
                q >= 0x80_0000,
                gap > 0,
        ;
    }
}

/// Halfway between two neighbours of 24 significant bits, the even one is taken.
pub proof fn law_round_ties(q: nat, s: nat)
    requires
        0x80_0000 <= q < 0x100_0000,
    ensures
        Number::round_mag((2 * q + 1) * pow2(s), 2) == (if q % 2 == 0 {
            q
        } else {
            q + 1
        }) * pow2(s),
{
    lemma_round_normal(2 * q + 1, 2, s);
    lemma_fundamental_div_mod_converse((2 * q + 1) as int, 2, q as int, 1);
}

/// A rounded magnitude has 24 significant bits at most.
pub proof fn law_round_fits(num: nat, den: nat) -> (r: (nat, nat))
    requires
        den > 0,
    ensures
        r.0 < 0x100_0000,
        Number::round_mag(num, den) == r.0 * pow2(r.1),
{
    let k = Number::quantum(num, den);
    lemma_quantum_bounds(num, den);
    lemma_pow2_pos(k);
    assert(den * pow2(k) > 0) by (nonlinear_arith)
        requires
            den > 0,
            pow2(k) > 0,
    ;
    lemma_nearest_bounds(num, den * pow2(k), 0, 0x100_0000);
    let q = Number::nearest_even(num, den * pow2(k));
    if q < 0x100_0000 {
        (q, k)
    } else {
        lemma_pow2_unfold(k + 1);
        assert(q * pow2(k) == 0x80_0000 * pow2(k + 1)) by (nonlinear_arith)
            requires
                q == 0x100_0000,
                pow2(k + 1) == 2 * pow2(k),
        ;
        (0x80_0000, k + 1)
    }
}

/// A sum, a product and a quotient of finite numbers are, where they are finite, the number of 24
/// significant bits that is nearest to the exact result.
pub proof fn law_nearest_results(a: Number, b: Number, neg: bool, m: nat, e: nat)
    requires
        a is Finite,
        b is Finite,
        m < 0x100_0000,
    ensures
        ({
            let one = Number::one();
            let y = Number::signed(neg, m * pow2(e));
            let x = a.place();
            let z = b.place();
            &&& a.plus(b) is Finite ==> no_further(a.plus(b).place() - (x + z), y - (x + z))
            &&& a.times(b) is Finite ==> no_further(
                a.times(b).place() * one - x * z,
                y * one - x * z,
            )
            &&& b.place() != 0 && a.over(b) is Finite ==> no_further(
                a.over(b).place() * z - x * one,
                y * z - x * one,
            )
        }),
{
    let one = Number::one();
    lemma_pow2_pos(149);
    let y = (m * pow2(e)) as int;
    let ma = a->mag as int;
    let mb = b->mag as int;
    assert(0 * pow2(0) == 0 && 0 * one == 0 && 0 * mb == 0);
    // the sum
    let sum = a.place() + b.place();
    let size: nat = if sum >= 0 {
        sum as nat
    } else {
        (-sum) as nat
    };
    law_round_nearest(size, 1, m, e);
    law_round_nearest(size, 1, 0, 0);
    assert(Number::round_mag(size, 1) * 1 == Number::round_mag(size, 1) && (m * pow2(e)) * 1 == m
        * pow2(e));
    // the product
    let size2 = (ma * mb) as nat;
    assert((-ma) * mb == -(ma * mb) && ma * (-mb) == -(ma * mb) && (-ma) * (-mb) == ma * mb && ma
        * mb >= 0) by (nonlinear_arith)
        requires
            ma >= 0,
            mb >= 0,
    ;
    law_round_nearest(size2, one, m, e);
    law_round_nearest(size2, one, 0, 0);
    let p = Number::round_mag(size2, one) as int;
    assert((-p) * one == -(p * one) && (-y) * one == -(y * one) && y * one >= 0) by (
        nonlinear_arith)
        requires
            y >= 0,
            one >= 0,
    ;
    // the quotient
    if mb > 0 {
        let size3 = (ma * one) as nat;
        assert((-ma) * one == -(ma * one) && ma * one >= 0) by (nonlinear_arith)
            requires
                ma >= 0,
                one >= 0,
        ;
        law_round_nearest(size3, mb as nat, m, e);
        law_round_nearest(size3, mb as nat, 0, 0);
        let q = Number::round_mag(size3, mb as nat) as int;
        assert((-q) * mb == -(q * mb) && q * (-mb) == -(q * mb) && (-q) * (-mb) == q * mb && (-y)
            * mb == -(y * mb) && y * (-mb) == -(y * mb) && (-y) * (-mb) == y * mb && y * mb >= 0)
            by (nonlinear_arith)
            requires
                y >= 0,
                mb >= 0,
        ;
    }
}

/// A ratio of whole numbers is, where it is finite, the number of 24 significant bits that is
/// nearest to it.
pub proof fn law_nearest_ratio(num: nat, den: nat, m: nat, e: nat)
    requires
        den > 0,
        m < 0x100_0000,
    ensures
        Number::ratio(num, den) != Number::Nan,
        Number::ratio(num, den) is Finite ==> no_further(
            Number::ratio(num, den).place() * den - num * Number::one(),
            (m * pow2(e)) * den - num * Number::one(),
        ),
{
    law_round_nearest(num * Number::one(), den, m, e);
}

/// `r` is no further from zero than `y`.
pub open spec fn no_further(r: int, y: int) -> bool {
    &&& r <= y || r <= -y
    &&& -r <= y || -r <= -y
}

/// From halfway between the greatest finite number and 2^128 on, and only from there, rounding
/// leads to infinity.
pub proof fn law_round_infinite(neg: bool, num: nat, den: nat)
    requires
        den > 0,
    ensures
        Number::round(neg, num, den) is Infinite <==> num >= (0x1FF_FFFF * pow2(252)) * den,
        Number::round(neg, num, den) != Number::Nan,
{
    lemma2_to64();
    lemma_pow2_pos(252);
    lemma_pow2_unfold(253);
    lemma_pow2_adds(24, 253);
    assert(pow2(277) == 0x100_0000 * pow2(253));
    let half = 0x1FF_FFFF * pow2(252);
    law_round_ties(0xFF_FFFF, 253);
    let edge = 0x1FF_FFFF * pow2(253);
    assert(edge == 2 * half);
    if num >= half * den {
        assert(edge * den <= num * 2) by (nonlinear_arith)
            requires
                edge == 2 * half,
                num >= half * den,
        ;
        lemma_round_monotone(edge, 2, num, den);
    } else {
        let top = 0xFF_FFFF * pow2(253);
        law_round_nearest(num, den, 0xFF_FFFF, 253);
        lemma_round_exact(0xFF_FFFF, 253);
        let r = Number::round_mag(num, den);
        if num <= top * den {
            assert(num * 1 <= top * den);
            lemma_round_monotone(num, den, top, 1);
        } else if r >= pow2(277) {
            assert(r * den - num > num - top * den) by (nonlinear_arith)
                requires
                    r >= pow2(277),
                    pow2(277) == 0x100_0000 * pow2(253),
                    pow2(253) == 2 * pow2(252),
                    top == 0xFF_FFFF * pow2(253),
                    half == 0x1FF_FFFF * pow2(252),
                    num < half * den,
                    den > 0,
            ;
        }
    }
}

/// What is no number stays none and stands nowhere, and neither is what infinities of both signs
/// add up to. An infinite term decides a sum, and an infinite factor a product.
pub proof fn law_infinite_sums(a: Number, b: Number)
    ensures
        a == Number::Nan || b == Number::Nan ==> a.plus(b) == Number::Nan && a.times(b)
            == Number::Nan && a.over(b) == Number::Nan,
        a is Infinite && b is Finite ==> a.plus(b) == a && b.plus(a) == a,
        a is Infinite && b is Infinite ==> a.plus(b) == if a == b {
            a
        } else {
            Number::Nan
        },
        a is Infinite && b is Infinite ==> a.over(b) == Number::Nan,
        a is Infinite && b is Finite && b.place() != 0 ==> a.times(b) is Infinite && (a.times(
            b,
        ).place() > 0 <==> (a.place() > 0 <==> b.place() > 0)),
        a is Infinite && b is Finite && b.place() == 0 ==> a.times(b) == Number::Nan,
        a == Number::Nan || b == Number::Nan ==> !a.below(b),
        a.times(b) == b.times(a),
        a.minus(b) == a.plus(b.negated()),
        b.negated().place() == -b.place(),
{
    lemma_pow2_pos(277);
    lemma_times_commutes(a, b);
}

/// Clamping brings a number to the nearer bound, and leaves alone what lies between them.
pub proof fn law_clamped(x: Number, low: Number, high: Number)
    requires
        x != Number::Nan,
        low != Number::Nan,
        high != Number::Nan,
        low.place() <= high.place(),
    ensures
        x.place() <= low.place() ==> x.clamped(low, high).place() == low.place(),
        x.place() >= high.place() ==> x.clamped(low, high).place() == high.place(),
        low.place() <= x.place() <= high.place() ==> x.clamped(low, high) == x,
        x.below(low) <==> x.place() < low.place(),
{
}

/// Counting takes the whole part, between 0 and 65535.
pub proof fn law_count(x: Number)
    requires
        x is Finite,
    ensures
        x.place() <= 0 ==> x.count() == 0,
        x.place() >= 65535 * Number::one() ==> x.count() == 65535,
        0 <= x.place() < 65536 * Number::one() ==> x.count() * Number::one() <= x.place() < (
        x.count() + 1) * Number::one(),
{
    let one = Number::one();
    lemma_pow2_pos(149);
    let mag = x->mag as int;
    lemma_fundamental_div_mod(mag, one as int);
    let q = mag / one as int;
    let left = mag % one as int;
    assert(q * one <= mag && mag < (q + 1) * one) by (nonlinear_arith)
        requires
            mag == one * q + left,
            0 <= left < one,
    ;
    assert(mag < 65536 * one ==> q <= 65535) by (nonlinear_arith)
        requires
            q * one <= mag,
            one > 0,
    ;
    assert(mag >= 65535 * one ==> q >= 65535) by (nonlinear_arith)
        requires
            mag < (q + 1) * one,
            one > 0,
    ;
    assert(mag == 0 ==> q == 0) by (nonlinear_arith)
        requires
            q * one <= mag,
            mag < (q + 1) * one,
            one > 0,
    ;
}

} // verus!
