//! The eased course of a move: it starts and ends slowly, along half a period of a cosine.
//!
//! The cosines themselves come from outside: `phases` says which angles to take them of, and
//! everything after them is computed here.

use vstd::arithmetic::div_mod::*;
use vstd::arithmetic::power2::*;
use vstd::prelude::*;

use crate::number::Number;
use crate::single::Single;

verus! {

/// Half a turn, in radians.
pub open spec fn half_turn() -> Number {
    Number::ratio(13176795, 4194304)
}

/// The angle of step `i` of `steps`, in radians.
pub open spec fn phase(i: nat, steps: nat) -> Number {
    Number::ratio(i, steps).times(half_turn())
}

/// The share of a move that is done when the cosine of its phase is `cosine`.
pub open spec fn weight(cosine: Number) -> Number {
    Number::ratio(1, 1).minus(cosine).over(Number::ratio(2, 1))
}

/// The position between `start` and `target` when the share `w` of the move is done.
pub open spec fn between(start: u16, target: u16, w: Number) -> u16 {
    Number::ratio(start as nat, 1).plus(
        Number::ratio(target as nat, 1).minus(Number::ratio(start as nat, 1)).times(w),
    ).count()
}

/// The phases of the steps `first..=steps`.
pub fn phases(first: u32, steps: u32) -> (r: Vec<Single>)
    requires
        first <= steps,
        0 < steps < 0x100_0000,
    ensures
        r@.len() == steps - first + 1,
        forall|i: int| 0 <= i < r@.len() ==> (#[trigger] r@[i])@ == phase(
            (first + i) as nat,
            steps as nat,
        ),
{
    let mut r: Vec<Single> = Vec::new();
    let half: Single = Single::ratio(13176795, 4194304);
    let mut i: u32 = first;
    while i <= steps
        invariant
            first <= i <= steps + 1,
            0 < steps < 0x100_0000,
            half@ == half_turn(),
            r@.len() == i - first,
            forall|j: int| 0 <= j < r@.len() ==> (#[trigger] r@[j])@ == phase(
                (first + j) as nat,
                steps as nat,
            ),
        decreases steps + 1 - i,
    {
        r.push(Single::ratio(i, steps).times(half));
        i = i + 1;
    }
    r
}

/// The share of a move that is done when the cosine of its phase is `cosine`.
pub fn ease(cosine: Single) -> (w: Single)
    ensures
        w@ == weight(cosine@),
{
    Single::ratio(1, 1).minus(cosine).over(Single::ratio(2, 1))
}

/// The position between `start` and `target` when the share `w` of the move is done.
pub fn position(start: u16, target: u16, w: Single) -> (p: u16)
    ensures
        p == between(start, target, w@),
{
    let from: Single = Single::ratio(start as u32, 1);
    let diff: Single = Single::ratio(target as u32, 1).minus(from);
    from.plus(diff.times(w)).count()
}

/// A share of a move: from nothing, 0, to all of it, 1.
pub open spec fn is_share(w: Number) -> bool {
    w matches Number::Finite { neg, mag } && mag <= Number::one() && (neg ==> mag == 0)
}

/// A value that a cosine can take: from -1 to 1.
pub open spec fn is_cosine(c: Number) -> bool {
    c matches Number::Finite { mag, .. } && mag <= Number::one()
}

/// Whole numbers of up to 24 bits are kept exactly.
pub proof fn lemma_whole(n: nat)
    requires
        n < 0x100_0000,
    ensures
        Number::ratio(n, 1) == (Number::Finite { neg: false, mag: n * Number::one() }),
        Number::round_mag(n * Number::one(), 1) == n * Number::one(),
        n * Number::one() < pow2(277),
{
    crate::number::lemma_round_exact(n, 149);
    lemma2_to64();
    lemma_pow2_pos(149);
    lemma_pow2_adds(149, 128);
    lemma_pow2_strictly_increases(24, 128);
    assert(n * pow2(149) < pow2(277)) by (nonlinear_arith)
        requires
            n < pow2(128),
            pow2(277) == pow2(149) * pow2(128),
            pow2(149) > 0,
    ;
}

/// The way left behind, in units: the share `mag` of the distance `k`, rounded.
spec fn way(k: nat, mag: nat) -> nat {
    Number::round_mag(k * mag, 1)
}

proof fn lemma_way(k: nat, mag: nat)
    requires
        k < 0x100_0000,
        mag <= Number::one(),
    ensures
        way(k, mag) <= k * Number::one(),
        way(k, mag) < pow2(277),
        Number::round_mag((k * Number::one()) * mag, Number::one()) == way(k, mag),
        mag == 0 ==> way(k, mag) == 0,
        mag == Number::one() ==> way(k, mag) == k * Number::one(),
{
    let one = Number::one();
    lemma_pow2_pos(149);
    lemma_whole(k);
    lemma_whole(0);
    assert(k * mag <= k * one) by (nonlinear_arith)
        requires
            mag <= one,
    ;
    crate::number::lemma_round_monotone(k * mag, 1, k * one, 1);
    assert((k * one) * mag == one * (k * mag)) by (nonlinear_arith);
    crate::number::lemma_round_scale(k * mag, 1, one);
    assert(one * 1 == one);
    assert(0 * one == 0 && k * 0 == 0);
}

/// Where a move stands, in units.
spec fn stand(start: u16, target: u16, mag: nat) -> int {
    if start <= target {
        start * Number::one() + way((target - start) as nat, mag)
    } else {
        start * Number::one() - way((start - target) as nat, mag)
    }
}

proof fn lemma_stand(start: u16, target: u16, neg: bool, mag: nat)
    requires
        is_share(Number::Finite { neg, mag }),
    ensures
        start <= target ==> start * Number::one() <= stand(start, target, mag) <= target
            * Number::one(),
        target <= start ==> target * Number::one() <= stand(start, target, mag) <= start
            * Number::one(),
        between(start, target, Number::Finite { neg, mag }) == Number::round_mag(
            stand(start, target, mag) as nat,
            1,
        ) / Number::one(),
        start <= target ==> start <= between(start, target, Number::Finite { neg, mag }) <= target,
        target <= start ==> target <= between(start, target, Number::Finite { neg, mag }) <= start,
{
    let one = Number::one();
    let w = Number::Finite { neg, mag };
    lemma_pow2_pos(149);
    lemma_whole(start as nat);
    lemma_whole(target as nat);
    let back = target < start;
    let k: nat = if back {
        (start - target) as nat
    } else {
        (target - start) as nat
    };
    let lo: nat = if back {
        target as nat
    } else {
        start as nat
    };
    let hi: nat = if back {
        start as nat
    } else {
        target as nat
    };
    lemma_whole(k);
    lemma_whole(0);
    lemma_way(k, mag);
    assert(hi * one == lo * one + k * one) by (nonlinear_arith)
        requires
            hi == lo + k,
    ;
    assert(k > 0 ==> k * one > 0) by (nonlinear_arith)
        requires
            one > 0,
    ;
    assert(0 * one == 0);
    let from = Number::ratio(start as nat, 1);
    let diff = Number::ratio(target as nat, 1).minus(from);
    assert(diff == (Number::Finite { neg: back, mag: k * one }));
    let part = diff.times(w);
    assert(part == (Number::Finite { neg: back != neg, mag: way(k, mag) }));
    let at = stand(start, target, mag);
    assert(lo * one <= at <= hi * one);
    assert(lo * one >= 0) by (nonlinear_arith)
        requires
            lo >= 0,
            one > 0,
    ;
    crate::number::lemma_round_monotone((lo * one) as nat, 1, at as nat, 1);
    crate::number::lemma_round_monotone(at as nat, 1, (hi * one) as nat, 1);
    let sum = from.plus(part);
    assert(sum == (Number::Finite { neg: false, mag: Number::round_mag(at as nat, 1) }));
    let mag2 = Number::round_mag(at as nat, 1);
    lemma_div_is_ordered((lo * one) as int, mag2 as int, one as int);
    lemma_div_is_ordered(mag2 as int, (hi * one) as int, one as int);
    lemma_div_by_multiple(lo as int, one as int);
    lemma_div_by_multiple(hi as int, one as int);
}

/// A move never leaves the range between its start and its target.
pub proof fn law_no_overshoot(start: u16, target: u16, w: Number)
    requires
        is_share(w),
    ensures
        start <= target ==> start <= between(start, target, w) <= target,
        target <= start ==> target <= between(start, target, w) <= start,
{
    lemma_stand(start, target, w->Finite_neg, w->mag);
}

/// A move with nothing done is at its start, and one with everything done is at its target.
pub proof fn law_ends(start: u16, target: u16, w: Number)
    requires
        is_share(w),
    ensures
        w.place() == 0 ==> between(start, target, w) == start,
        w.place() == Number::one() ==> between(start, target, w) == target,
{
    let one = Number::one();
    lemma_pow2_pos(149);
    lemma_stand(start, target, w->Finite_neg, w->mag);
    let k: nat = if target < start {
        (start - target) as nat
    } else {
        (target - start) as nat
    };
    lemma_way(k, w->mag);
    lemma_whole(start as nat);
    lemma_whole(target as nat);
    lemma_div_by_multiple(start as int, one as int);
    lemma_div_by_multiple(target as int, one as int);
    if w.place() == one {
        assert(stand(start, target, one) == target * one) by (nonlinear_arith)
            requires
                start <= target ==> k == target - start && stand(start, target, one) == start * one
                    + k * one,
                start > target ==> k == start - target && stand(start, target, one) == start * one
                    - k * one,
        ;
    }
}

/// The more of a move is done, the nearer it is to its target.
pub proof fn law_onward(start: u16, target: u16, w1: Number, w2: Number)
    requires
        is_share(w1),
        is_share(w2),
        w1.place() <= w2.place(),
    ensures
        start <= target ==> between(start, target, w1) <= between(start, target, w2),
        target <= start ==> between(start, target, w2) <= between(start, target, w1),
{
    let one = Number::one();
    lemma_pow2_pos(149);
    let m1 = w1->mag;
    let m2 = w2->mag;
    lemma_stand(start, target, w1->Finite_neg, m1);
    lemma_stand(start, target, w2->Finite_neg, m2);
    let k: nat = if target < start {
        (start - target) as nat
    } else {
        (target - start) as nat
    };
    assert(k * m1 <= k * m2) by (nonlinear_arith)
        requires
            m1 <= m2,
    ;
    crate::number::lemma_round_monotone(k * m1, 1, k * m2, 1);
    let s1 = stand(start, target, m1);
    let s2 = stand(start, target, m2);
    assert(s1 >= 0 && s2 >= 0) by (nonlinear_arith)
        requires
            s1 >= start * one || s1 >= target * one,
            s2 >= start * one || s2 >= target * one,
            one > 0,
    ;
    if start <= target {
        crate::number::lemma_round_monotone(s1 as nat, 1, s2 as nat, 1);
        lemma_div_is_ordered(
            Number::round_mag(s1 as nat, 1) as int,
            Number::round_mag(s2 as nat, 1) as int,
            one as int,
        );
    } else {
        crate::number::lemma_round_monotone(s2 as nat, 1, s1 as nat, 1);
        lemma_div_is_ordered(
            Number::round_mag(s2 as nat, 1) as int,
            Number::round_mag(s1 as nat, 1) as int,
            one as int,
        );
    }
}

/// The rounded difference between 1 and a cosine.
proof fn lemma_rest(c: Number)
    requires
        is_cosine(c),
    ensures
        Number::ratio(1, 1).minus(c) == (Number::Finite {
            neg: false,
            mag: Number::round_mag((Number::one() - c.place()) as nat, 1),
        }),
        Number::round_mag((Number::one() - c.place()) as nat, 1) <= 2 * Number::one(),
        c.place() == Number::one() ==> Number::round_mag((Number::one() - c.place()) as nat, 1)
            == 0,
        c.place() == -Number::one() ==> Number::round_mag((Number::one() - c.place()) as nat, 1)
            == 2 * Number::one(),
{
    lemma_pow2_pos(149);
    lemma_whole(0);
    lemma_whole(1);
    lemma_whole(2);
    assert(0 * Number::one() == 0);
    assert(1 * Number::one() == Number::one());
    let d = (Number::one() - c.place()) as nat;
    crate::number::lemma_round_monotone(d, 1, 2 * Number::one(), 1);
}

proof fn lemma_halved(x: nat)
    requires
        x <= 2 * Number::one(),
    ensures
        (Number::Finite { neg: false, mag: x }).over(Number::ratio(2, 1)) == (Number::Finite {
            neg: false,
            mag: Number::round_mag(x, 2),
        }),
        Number::round_mag(x, 2) <= Number::one(),
        x == 0 ==> Number::round_mag(x, 2) == 0,
        x == 2 * Number::one() ==> Number::round_mag(x, 2) == Number::one(),
{
    let one = Number::one();
    lemma_pow2_pos(149);
    lemma_whole(0);
    lemma_whole(1);
    lemma_whole(2);
    assert(0 * one == 0 && 1 * one == one);
    assert(x * one == one * x && (2 * one) == one * 2) by (nonlinear_arith);
    crate::number::lemma_round_scale(x, 2, one);
    crate::number::lemma_round_scale(one, 1, 2);
    crate::number::lemma_round_monotone(x, 2, 2 * one, 2);
    crate::number::lemma_round_scale(0, 1, 2);
}

/// The share of a move that belongs to a cosine lies between 0 and 1.
pub proof fn law_weight_is_share(c: Number)
    requires
        is_cosine(c),
    ensures
        is_share(weight(c)),
{
    lemma_rest(c);
    lemma_halved(Number::round_mag((Number::one() - c.place()) as nat, 1));
}

/// A move begins where the cosine is 1 and is complete where it is -1.
pub proof fn law_weight_ends(c: Number)
    requires
        is_cosine(c),
    ensures
        c.place() == Number::one() ==> weight(c).place() == 0,
        c.place() == -Number::one() ==> weight(c).place() == Number::one(),
{
    lemma_rest(c);
    lemma_halved(Number::round_mag((Number::one() - c.place()) as nat, 1));
}

/// As the cosine falls, the share of the move that is done grows.
pub proof fn law_weight_onward(c1: Number, c2: Number)
    requires
        is_cosine(c1),
        is_cosine(c2),
        c2.place() <= c1.place(),
    ensures
        weight(c1).place() <= weight(c2).place(),
{
    lemma_rest(c1);
    lemma_rest(c2);
    let d1 = (Number::one() - c1.place()) as nat;
    let d2 = (Number::one() - c2.place()) as nat;
    crate::number::lemma_round_monotone(d1, 1, d2, 1);
    let x1 = Number::round_mag(d1, 1);
    let x2 = Number::round_mag(d2, 1);
    lemma_halved(x1);
    lemma_halved(x2);
    crate::number::lemma_round_monotone(x1, 2, x2, 2);
}

/// Half a turn is a positive number below 4.
proof fn lemma_half_turn()
    ensures
        half_turn() matches Number::Finite { neg, mag } && !neg && 0 < mag <= 4 * Number::one()
            && Number::round_mag(mag, 1) == mag,
{
    let one = Number::one();
    lemma2_to64();
    lemma_pow2_pos(127);
    lemma_pow2_adds(22, 127);
    lemma_pow2_pos(149);
    lemma_whole(1);
    lemma_whole(4);
    assert(1 * one == one);
    let num: nat = 13176795;
    let den: nat = 4194304;
    assert(one * den <= (num * one) * 1 && (num * one) * 1 <= (4 * one) * den) by (nonlinear_arith)
        requires
            num == 13176795,
            den == 4194304,
    ;
    crate::number::lemma_round_monotone(one, 1, num * one, den);
    crate::number::lemma_round_monotone(num * one, den, 4 * one, 1);
    let mag = num * pow2(127);
    assert(num * one == den * mag && den * 1 == den) by (nonlinear_arith)
        requires
            one == den * pow2(127),
            mag == num * pow2(127),
    ;
    crate::number::lemma_round_scale(mag, 1, den);
    crate::number::lemma_round_exact(num, 127);
}

/// Phases run from 0 at the start to half a turn at the last step, and never fall on the way.
pub proof fn law_phases(i: nat, j: nat, steps: nat)
    requires
        i <= j <= steps,
        0 < steps < 0x100_0000,
    ensures
        0 <= phase(i, steps).place() <= phase(j, steps).place() <= half_turn().place(),
        phase(i, steps) is Finite,
        phase(0, steps).place() == 0,
        phase(steps, steps) == half_turn(),
{
    let one = Number::one();
    lemma_pow2_pos(149);
    lemma_whole(0);
    lemma_whole(1);
    lemma_whole(4);
    assert(0 * one == 0 && 1 * one == one);
    lemma_half_turn();
    let half = half_turn()->mag;
    let a = Number::round_mag(i * one, steps);
    let b = Number::round_mag(j * one, steps);
    assert((i * one) * steps <= (j * one) * steps && (j * one) * 1 <= one * steps)
        by (nonlinear_arith)
        requires
            i <= j <= steps,
    ;
    crate::number::lemma_round_monotone(i * one, steps, j * one, steps);
    crate::number::lemma_round_monotone(j * one, steps, one, 1);
    assert((a * half) * one <= (b * half) * one && (b * half) * 1 <= half * one)
        by (nonlinear_arith)
        requires
            a <= b <= one,
    ;
    crate::number::lemma_round_monotone(a * half, one, b * half, one);
    crate::number::lemma_round_monotone(b * half, one, half, 1);
    // the start
    assert(steps * 0 == 0 && steps * 1 == steps);
    crate::number::lemma_round_scale(0, 1, steps);
    assert(0 * half == one * 0 && one * 1 == one) by (nonlinear_arith);
    crate::number::lemma_round_scale(0, 1, one);
    // the last step
    crate::number::lemma_round_scale(one, 1, steps);
    crate::number::lemma_round_scale(half, 1, one);
    assert(Number::ratio(steps, steps) == (Number::Finite { neg: false, mag: one }));
}

/// A position is within one count of the share `w` of the way from `start` to `target`, but for a
/// 256th of a count that rounding may take: in units, `start * 1 + (target - start) * w`.
pub proof fn law_between_near(start: u16, target: u16, w: Number)
    requires
        is_share(w),
    ensures
        ({
            let one = Number::one();
            let exact = start * one + (target - start) * w.place();
            &&& 256 * (between(start, target, w) * one) <= 256 * exact + one
            &&& 256 * exact < 256 * ((between(start, target, w) + 1) * one) + one
        }),
{
    let one = Number::one();
    let mag = w->mag;
    let t = pow2(141);
    lemma2_to64();
    lemma_pow2_pos(149);
    crate::number::lemma_part(8);
    assert(1 * t == t);
    lemma_stand(start, target, w->Finite_neg, mag);
    let k: nat = if target < start {
        (start - target) as nat
    } else {
        (target - start) as nat
    };
    assert(k * mag <= 65535 * one) by (nonlinear_arith)
        requires
            k <= 65535,
            mag <= one,
    ;
    crate::number::lemma_round_err(k * mag, 1, 141);
    lemma_way(k, mag);
    let at = stand(start, target, mag);
    assert(0 <= at <= 65535 * one) by (nonlinear_arith)
        requires
            start <= target ==> start * one <= at <= target * one,
            target <= start ==> target * one <= at <= start * one,
            start <= 65535,
            target <= 65535,
            start >= 0,
            target >= 0,
            one > 0,
    ;
    crate::number::lemma_round_err(at as nat, 1, 141);
    let sum = Number::round_mag(at as nat, 1);
    assert(sum * 1 == sum && way(k, mag) * 1 == way(k, mag));
    let exact = start * one + (target - start) * w.place();
    assert((target - start) * w.place() == if target < start {
        -(k * mag)
    } else {
        (k * mag) as int
    }) by (nonlinear_arith)
        requires
            w.place() == mag,
            target < start ==> k == start - target,
            target >= start ==> k == target - start,
    ;
    let b = between(start, target, w);
    lemma_fundamental_div_mod(sum as int, one as int);
    let left = sum as int % one as int;
    assert(b * one <= sum && sum < (b + 1) * one) by (nonlinear_arith)
        requires
            sum == one * b + left,
            0 <= left < one,
    ;
}

/// Where the share is a whole number of 256ths, nothing is lost to rounding: the position is the
/// whole part of the exact one. Half of the way is the midpoint.
pub proof fn law_between_exact(start: u16, target: u16, w: Number, parts: nat)
    requires
        parts <= 256,
        w is Finite,
        256 * w.place() == parts * Number::one(),
    ensures
        between(start, target, w) == (256 * start + (target - start) * parts) / 256,
{
    let one = Number::one();
    let mag = w->mag;
    let t = pow2(141);
    lemma2_to64();
    lemma_pow2_pos(149);
    crate::number::lemma_part(8);
    assert(mag == parts * t && mag <= one && w.place() >= 0) by (nonlinear_arith)
        requires
            256 * w.place() == parts * one,
            one == 256 * t,
            parts <= 256,
            w.place() == mag || w.place() == -mag,
            t > 0,
    ;
    lemma_stand(start, target, w->Finite_neg, mag);
    let k: nat = if target < start {
        (start - target) as nat
    } else {
        (target - start) as nat
    };
    assert(k * parts <= 65535 * 256) by (nonlinear_arith)
        requires
            k <= 65535,
            parts <= 256,
    ;
    assert(k * mag == (k * parts) * t) by (nonlinear_arith)
        requires
            mag == parts * t,
    ;
    crate::number::lemma_round_exact(k * parts, 141);
    let n = 256 * start + (target - start) * parts;
    assert(0 <= n <= 65535 * 256 && (target - start) * parts == if target < start {
        -(k * parts)
    } else {
        (k * parts) as int
    }) by (nonlinear_arith)
        requires
            n == 256 * start + (target - start) * parts,
            0 <= start <= 65535,
            0 <= target <= 65535,
            0 <= parts <= 256,
            target < start ==> k == start - target,
            target >= start ==> k == target - start,
    ;
    let at = stand(start, target, mag);
    assert(at == n * t) by (nonlinear_arith)
        requires
            n == 256 * start + (if target < start {
                -(k * parts)
            } else {
                (k * parts) as int
            }),
            at == start * one + (if target < start {
                -((k * parts) * t)
            } else {
                ((k * parts) * t) as int
            }),
            one == 256 * t,
    ;
    crate::number::lemma_round_exact(n as nat, 141);
    assert(n as nat * pow2(141) == at as nat);
    lemma_fundamental_div_mod(n, 256);
    let q = n / 256;
    let r = n % 256;
    assert(at == q * one + r * t && 0 <= r * t < one) by (nonlinear_arith)
        requires
            at == n * t,
            n == 256 * q + r,
            one == 256 * t,
            0 <= r < 256,
            t > 0,
    ;
    lemma_fundamental_div_mod_converse(at, one as int, q, r * t);
}

/// The share of a move that is done is half of what the cosine has left of 1, within a rounding
/// error: `(1 - cosine) / 2`.
pub proof fn law_weight_near(c: Number)
    requires
        is_cosine(c),
    ensures
        ({
            let one = Number::one();
            let w = weight(c).place();
            &&& 4194304 * (2 * w - (one - c.place())) <= one
            &&& 4194304 * ((one - c.place()) - 2 * w) <= one
        }),
{
    let one = Number::one();
    lemma2_to64();
    lemma_pow2_pos(149);
    crate::number::lemma_part(22);
    lemma_pow2_unfold(127);
    lemma_pow2_unfold(126);
    lemma_rest(c);
    let d = (one - c.place()) as nat;
    let x = Number::round_mag(d, 1);
    lemma_halved(x);
    assert(1 * pow2(127) == pow2(127) && x * 1 == x);
    crate::number::lemma_round_err(d, 1, 127);
    crate::number::lemma_round_err(x, 2, 126);
}

/// What is written for a cosine is within one count of the exact course of the move,
/// `start + (target - start) * (1 - cosine) / 2`, but for a 64th of a count that rounding may
/// take.
pub open spec fn eases(off: u16, start: u16, target: u16, cosine: Number) -> bool {
    let one = Number::one();
    let twice = 2 * (start * one) + (target - start) * (one - cosine.place());
    &&& 64 * (off * one) <= 32 * twice + one
    &&& 32 * twice < 64 * ((off + 1) * one) + one
}

/// A joint is on the course of the cosine at every step.
pub proof fn law_eased(start: u16, target: u16, c: Number)
    requires
        is_cosine(c),
    ensures
        eases(between(start, target, weight(c)), start, target, c),
{
    let one = Number::one();
    let w = weight(c);
    lemma_pow2_pos(149);
    law_weight_is_share(c);
    law_weight_near(c);
    law_between_near(start, target, w);
    let rest = one - c.place();
    let off = 2 * w.place() - rest;
    let k = target - start;
    assert(2 * (k * w.place()) == k * rest + k * off) by (nonlinear_arith)
        requires
            off == 2 * w.place() - rest,
    ;
    assert(64 * (k * off) <= one && 64 * (k * off) >= -one) by (nonlinear_arith)
        requires
            4194304 * off <= one,
            -4194304 * off <= one,
            -65535 <= k <= 65535,
            one > 0,
    ;
}

/// A move has but one course: what is on it at a step is one count, or two that are neighbours,
/// and it is the exact one within a count and a 64th.
pub proof fn law_one_course(off1: u16, off2: u16, start: u16, target: u16, c: Number)
    requires
        eases(off1, start, target, c),
        eases(off2, start, target, c),
    ensures
        off1 <= off2 + 1,
        ({
            let one = Number::one();
            let twice = 2 * (start * one) + (target - start) * (one - c.place());
            &&& 64 * (off1 * one) <= 32 * twice + one
            &&& 32 * twice < 64 * ((off1 + 1) * one) + one
        }),
{
    let one = Number::one();
    lemma_pow2_pos(149);
    assert(off1 < off2 + 2) by (nonlinear_arith)
        requires
            64 * (off1 * one) < 64 * ((off2 + 1) * one) + 2 * one,
            one > 0,
    ;
}

/// Cosines lie between -1 and 1, and shares between 0 and 1.
pub proof fn law_cosines_and_shares(x: Number)
    ensures
        is_cosine(x) <==> x is Finite && -Number::one() <= x.place() <= Number::one(),
        is_share(x) <==> x is Finite && 0 <= x.place() <= Number::one(),
{
}

/// Half a turn is 13176795 parts of 2^22: the number nearest to 3.14159265.
pub proof fn law_half_turn()
    ensures
        half_turn() is Finite,
        4194304 * half_turn().place() == 13176795 * Number::one(),
{
    lemma2_to64();
    crate::number::lemma_part(22);
    lemma_half_turn();
    let num: nat = 13176795;
    let den: nat = 4194304;
    let one = Number::one();
    let mag = num * pow2(127);
    assert(num * one == den * mag && den * 1 == den) by (nonlinear_arith)
        requires
            one == den * pow2(127),
            mag == num * pow2(127),
    ;
    crate::number::lemma_round_scale(mag, 1, den);
    crate::number::lemma_round_exact(num, 127);
}

/// Step `i` of `steps` has the phase `i / steps` of half a turn, within a rounding error.
pub proof fn law_phase_near(i: nat, steps: nat)
    requires
        i <= steps,
        0 < steps < 0x100_0000,
    ensures
        phase(i, steps) is Finite,
        ({
            let gap = steps * phase(i, steps).place() - i * half_turn().place();
            &&& 1048576 * gap <= steps * Number::one()
            &&& -1048576 * gap <= steps * Number::one()
        }),
{
    let one = Number::one();
    lemma2_to64();
    lemma_pow2_pos(149);
    lemma_whole(1);
    assert(1 * one == one);
    lemma_half_turn();
    let h = half_turn()->mag;
    let t = pow2(126);
    crate::number::lemma_part(23);
    lemma_pow2_unfold(127);
    // the ratio
    let a = Number::round_mag(i * one, steps);
    assert(i * one <= steps * one && steps * one == 0x80_0000 * (steps * t)) by (nonlinear_arith)
        requires
            i <= steps,
            one == 0x80_0000 * t,
    ;
    assert(steps * t > 0) by (nonlinear_arith)
        requires
            steps > 0,
            t > 0,
    ;
    crate::number::lemma_round_err(i * one, steps, 126);
    assert((i * one) * 1 <= one * steps) by (nonlinear_arith)
        requires
            i <= steps,
    ;
    crate::number::lemma_round_monotone(i * one, steps, one, 1);
    let ratio = Number::ratio(i, steps);
    assert(ratio == (Number::Finite { neg: false, mag: a }));
    // the product
    assert(0 <= a * h && a * h <= one * (4 * one) && one * (4 * one) == 0x100_0000 * (one * (2 * t))
        && a * h <= one * h) by (nonlinear_arith)
        requires
            0 <= a <= one,
            0 <= h <= 4 * one,
            one == 0x80_0000 * t,
    ;
    assert(h < 4 * one) by {
        law_half_turn();
    }
    assert(a * h < 0x100_0000 * (one * pow2(127))) by (nonlinear_arith)
        requires
            a * h <= one * h,
            h < 4 * one,
            one > 0,
            one * (4 * one) == 0x100_0000 * (one * (2 * t)),
            pow2(127) == 2 * t,
    ;
    crate::number::lemma_times_near(ratio, half_turn(), 127);
    let p = phase(i, steps).place();
    let e = a * steps - i * one;
    let f = p * one - a * h;
    assert((steps * p - i * h) * one == steps * f + e * h) by (nonlinear_arith)
        requires
            e == a * steps - i * one,
            f == p * one - a * h,
    ;
    let gap = steps * p - i * h;
    assert(2 * (steps * f) <= 2 * (one * (steps * t)) && -2 * (steps * f) <= 2 * (one * (steps
        * t))) by (nonlinear_arith)
        requires
            2 * f <= one * (2 * t),
            -2 * f <= one * (2 * t),
            steps > 0,
    ;
    assert(2 * (e * h) <= 4 * (one * (steps * t)) && -2 * (e * h) <= 4 * (one * (steps * t)))
        by (nonlinear_arith)
        requires
            2 * e <= steps * t,
            -2 * e <= steps * t,
            0 <= h <= 4 * one,
            steps * t > 0,
    ;
    let st = steps * t;
    assert(gap * one <= 3 * (one * st) && -(gap * one) <= 3 * (one * st));
    assert(gap <= 3 * st && -gap <= 3 * st) by (nonlinear_arith)
        requires
            gap * one <= 3 * (one * st),
            -(gap * one) <= 3 * (one * st),
            one > 0,
    ;
}

} // verus!
