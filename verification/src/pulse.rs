//! From angles to servo pulses.

use vstd::arithmetic::div_mod::*;
use vstd::arithmetic::power2::*;
use vstd::bits::*;
use vstd::prelude::*;

use crate::number::Number;
use crate::single::Single;
use crate::step::Message;

verus! {

/// The shortest and the longest pulse of the servos.
pub const SERVO_MIN: u16 = 150;

pub const SERVO_MAX: u16 = 600;

/// The pulse of an angle in degrees.
pub open spec fn servo_pulse(angle: Number) -> u16 {
    Number::ratio(SERVO_MIN as nat, 1).plus(
        angle.over(Number::ratio(180, 1)).times(
            Number::ratio((SERVO_MAX - SERVO_MIN) as nat, 1),
        ),
    ).count()
}

/// The pulse of an angle in degrees.
pub fn angle_to_pulse(angle: Single) -> (pulse: u16)
    ensures
        pulse == servo_pulse(angle@),
{
    let span: Single = Single::ratio((SERVO_MAX - SERVO_MIN) as u32, 1);
    Single::ratio(SERVO_MIN as u32, 1).plus(angle.over(Single::ratio(180, 1)).times(span)).count()
}

/// The greatest angle that `calculate_pulse` tells apart from those above it.
pub const Y_ANGLE_MAX: u32 = 89;

/// The least and the greatest pulse that `calculate_pulse` lets pass.
pub const PULSE_MIN: u32 = 150;

pub const PULSE_MAX: u32 = 650;

/// The angle that counts for a pulse.
pub open spec fn limited_angle(y_angle: u32) -> u32 {
    if y_angle > Y_ANGLE_MAX {
        Y_ANGLE_MAX
    } else {
        y_angle
    }
}

/// The pulse of a vertical angle: 150 and 5 for every degree.
pub open spec fn vertical_pulse(y_angle: u32) -> u32 {
    (150 + 5 * limited_angle(y_angle)) as u32
}

/// The pulse of a vertical angle.
pub fn calculate_pulse(y_angle: u32) -> (pulse: u32)
    ensures
        pulse == vertical_pulse(y_angle),
        y_angle <= 89 ==> pulse == 150 + 5 * y_angle,
        y_angle > 89 ==> pulse == 595,
{
    let y_scaled: u32 = if y_angle > Y_ANGLE_MAX {
        Y_ANGLE_MAX
    } else {
        y_angle
    };
    let pulse: u32 = 150 + 5 * y_scaled;
    // the last guard, out of reach for every limited angle
    if pulse < PULSE_MIN {
        PULSE_MIN
    } else if pulse > PULSE_MAX {
        PULSE_MAX
    } else {
        pulse
    }
}

/// What is reported along with a calculated pulse.
pub open spec fn pulse_messages(y_angle: u32) -> Seq<Message> {
    let pulse = vertical_pulse(y_angle);
    let lines = seq![
        Message::AngleLimited { angle: limited_angle(y_angle) },
        Message::PulseRaw { pulse },
        Message::PulseLimited { pulse },
    ];
    if pulse < 180 {
        lines.push(Message::PulseLow { pulse })
    } else if pulse > 620 {
        lines.push(Message::PulseHigh { pulse })
    } else {
        lines
    }
}

/// What is reported along with a calculated pulse.
pub fn pulse_report(y_angle: u32) -> (lines: Vec<Message>)
    ensures
        lines@ == pulse_messages(y_angle),
{
    let angle: u32 = if y_angle > Y_ANGLE_MAX {
        Y_ANGLE_MAX
    } else {
        y_angle
    };
    let pulse: u32 = calculate_pulse(y_angle);
    let mut lines: Vec<Message> = Vec::new();
    lines.push(Message::AngleLimited { angle });
    lines.push(Message::PulseRaw { pulse: 150 + 5 * angle });
    lines.push(Message::PulseLimited { pulse });
    if pulse < 180 {
        lines.push(Message::PulseLow { pulse });
    } else if pulse > 620 {
        lines.push(Message::PulseHigh { pulse });
    }
    lines
}

/// Calculated pulses stay between 150 and 595, and grow with the angle.
pub proof fn law_vertical_pulse(y1: u32, y2: u32)
    requires
        y1 <= y2,
    ensures
        150 <= vertical_pulse(y1) <= vertical_pulse(y2) <= 595,
{
}

/// The low warning comes for angles below 6 degrees, and the high warning never comes.
pub proof fn law_pulse_warnings(y_angle: u32)
    ensures
        pulse_messages(y_angle).contains(Message::PulseLow { pulse: vertical_pulse(y_angle) })
            <==> y_angle < 6,
        forall|i: int|
            0 <= i < pulse_messages(y_angle).len() ==> !(#[trigger] pulse_messages(
                y_angle,
            )[i] is PulseHigh),
{
    let lines = pulse_messages(y_angle);
    if y_angle < 6 {
        assert(lines[3] == (Message::PulseLow { pulse: vertical_pulse(y_angle) }));
    }
}

/// An angle of the servos: from 0 to 180 degrees.
pub open spec fn is_servo_angle(angle: Number) -> bool {
    angle matches Number::Finite { neg, mag } && mag <= 180 * Number::one() && (neg ==> mag == 0)
}

/// The part of the span that an angle takes, in units.
spec fn span_part(mag: nat) -> nat {
    let share = Number::round_mag(mag * Number::one(), 180 * Number::one());
    Number::round_mag(share * (450 * Number::one()), Number::one())
}

proof fn lemma_span_part(mag1: nat, mag2: nat)
    requires
        mag1 <= mag2 <= 180 * Number::one(),
    ensures
        Number::round_mag(mag2 * Number::one(), 180 * Number::one()) <= Number::one(),
        span_part(mag1) <= span_part(mag2) <= 450 * Number::one(),
        mag2 == 0 ==> span_part(mag2) == 0,
        mag2 == 180 * Number::one() ==> span_part(mag2) == 450 * Number::one(),
{
    let one = Number::one();
    lemma_pow2_pos(149);
    crate::curve::lemma_whole(0);
    crate::curve::lemma_whole(1);
    crate::curve::lemma_whole(450);
    assert(0 * one == 0 && 1 * one == one);
    let full = 180 * one;
    let s1 = Number::round_mag(mag1 * one, full);
    let s2 = Number::round_mag(mag2 * one, full);
    assert((mag1 * one) * full <= (mag2 * one) * full) by (nonlinear_arith)
        requires
            mag1 <= mag2,
    ;
    crate::number::lemma_round_monotone(mag1 * one, full, mag2 * one, full);
    assert((mag2 * one) * 1 <= one * full) by (nonlinear_arith)
        requires
            mag2 <= full,
    ;
    crate::number::lemma_round_monotone(mag2 * one, full, one, 1);
    if mag2 == full {
        assert(full * one == full * one && full * 1 == full);
        crate::number::lemma_round_scale(one, 1, full);
    }
    if mag2 == 0 {
        assert(0 * one == full * 0 && full * 1 == full) by (nonlinear_arith);
        crate::number::lemma_round_scale(0, 1, full);
    }
    let top = 450 * one;
    assert((s1 * top) * one <= (s2 * top) * one) by (nonlinear_arith)
        requires
            s1 <= s2,
    ;
    crate::number::lemma_round_monotone(s1 * top, one, s2 * top, one);
    assert((s2 * top) * 1 <= top * one) by (nonlinear_arith)
        requires
            s2 <= one,
    ;
    crate::number::lemma_round_monotone(s2 * top, one, top, 1);
    if mag2 == full {
        assert(one * top == one * top && one * 1 == one);
        crate::number::lemma_round_scale(top, 1, one);
    }
    if mag2 == 0 {
        assert(0 * top == one * 0 && one * 1 == one) by (nonlinear_arith);
        crate::number::lemma_round_scale(0, 1, one);
    }
}

proof fn lemma_servo_pulse(angle: Number)
    requires
        is_servo_angle(angle),
    ensures
        servo_pulse(angle) == Number::round_mag(
            150 * Number::one() + span_part(angle->mag),
            1,
        ) / Number::one(),
        150 * Number::one() <= Number::round_mag(
            150 * Number::one() + span_part(angle->mag),
            1,
        ) <= 600 * Number::one(),
{
    let one = Number::one();
    let mag = angle->mag;
    let neg = angle->Finite_neg;
    lemma_pow2_pos(149);
    crate::curve::lemma_whole(1);
    crate::curve::lemma_whole(150);
    crate::curve::lemma_whole(180);
    crate::curve::lemma_whole(450);
    crate::curve::lemma_whole(600);
    assert(1 * one == one);
    lemma_span_part(mag, mag);
    let share = Number::round_mag(mag * one, 180 * one);
    assert(angle.over(Number::ratio(180, 1)) == (Number::Finite { neg, mag: share }));
    let part = angle.over(Number::ratio(180, 1)).times(Number::ratio(450, 1));
    assert(part == (Number::Finite { neg, mag: span_part(mag) }));
    if neg {
        lemma_span_part(0, 0);
    }
    let at = 150 * one + span_part(mag);
    crate::number::lemma_round_monotone(150 * one, 1, at, 1);
    crate::number::lemma_round_monotone(at, 1, 600 * one, 1);
    let sum = Number::ratio(150, 1).plus(part);
    assert(sum == (Number::Finite { neg: false, mag: Number::round_mag(at, 1) }));
    lemma_div_is_ordered(Number::round_mag(at, 1) as int, (600 * one) as int, one as int);
    lemma_div_by_multiple(600, one as int);
}

/// Pulses of servo angles stay between the shortest and the longest pulse, and grow with the
/// angle. The ends of the range go to the ends of the range.
pub proof fn law_servo_pulse(angle1: Number, angle2: Number)
    requires
        is_servo_angle(angle1),
        is_servo_angle(angle2),
        angle1.place() <= angle2.place(),
    ensures
        SERVO_MIN <= servo_pulse(angle1) <= servo_pulse(angle2) <= SERVO_MAX,
        angle1.place() == 0 ==> servo_pulse(angle1) == SERVO_MIN,
        angle2.place() == 180 * Number::one() ==> servo_pulse(angle2) == SERVO_MAX,
{
    let one = Number::one();
    lemma_pow2_pos(149);
    lemma_servo_pulse(angle1);
    lemma_servo_pulse(angle2);
    let mag1 = angle1->mag;
    let mag2 = angle2->mag;
    lemma_span_part(mag1, mag2);
    let at1 = 150 * one + span_part(mag1);
    let at2 = 150 * one + span_part(mag2);
    crate::number::lemma_round_monotone(at1, 1, at2, 1);
    let r1 = Number::round_mag(at1, 1);
    let r2 = Number::round_mag(at2, 1);
    crate::curve::lemma_whole(150);
    crate::curve::lemma_whole(600);
    lemma_div_is_ordered((150 * one) as int, r1 as int, one as int);
    lemma_div_is_ordered(r1 as int, r2 as int, one as int);
    lemma_div_is_ordered(r2 as int, (600 * one) as int, one as int);
    lemma_div_by_multiple(150, one as int);
    lemma_div_by_multiple(600, one as int);
    if angle1.place() == 0 {
        lemma_span_part(0, 0);
    }
}

/// A greater angle never gives a shorter pulse, for all numbers: beyond the range of the servos,
/// below zero and at infinity too.
pub proof fn law_pulse_order(angle1: Number, angle2: Number)
    requires
        crate::number::is_held(angle1),
        crate::number::is_held(angle2),
        angle1.place() <= angle2.place(),
    ensures
        servo_pulse(angle1) <= servo_pulse(angle2),
{
    let one = Number::one();
    lemma_pow2_pos(149);
    crate::curve::lemma_whole(150);
    crate::curve::lemma_whole(180);
    crate::curve::lemma_whole(450);
    let full = Number::ratio(180, 1);
    let span = Number::ratio(450, 1);
    let base = Number::ratio(150, 1);
    crate::number::lemma_over_order(angle1, angle2, full);
    let share1 = angle1.over(full);
    let share2 = angle2.over(full);
    crate::number::lemma_times_order(share1, share2, span);
    let part1 = share1.times(span);
    let part2 = share2.times(span);
    assert(base.plus(part1) == part1.plus(base) && base.plus(part2) == part2.plus(base));
    crate::number::lemma_plus_order(part1, part2, base);
    crate::number::lemma_count_order(base.plus(part1), base.plus(part2));
}

/// How far `x` is shifted so that a 180th of it has 24 bits.
spec fn share_shift(x: u64) -> u64 {
    if x >= 180 {
        23
    } else if x >= 90 {
        24
    } else if x >= 45 {
        25
    } else if x >= 23 {
        26
    } else if x >= 12 {
        27
    } else if x >= 6 {
        28
    } else if x >= 3 {
        29
    } else if x >= 2 {
        30
    } else {
        31
    }
}

/// The whole number nearest to `n / d`, the even one on a tie.
spec fn near(n: u64, d: u64) -> u64 {
    let q = n / d;
    let r = n % d;
    if r + r < d || (r + r == d && q % 2 == 0) {
        q
    } else {
        (q + 1) as u64
    }
}

/// The whole number nearest to `n / 2^t`, the even one on a tie.
spec fn near_shift(n: u64, t: u64) -> u64 {
    let q = n >> t;
    let r = (n - (q << t)) as u64;
    let d = 1u64 << t;
    if r + r < d || (r + r == d && q & 1 == 0) {
        q
    } else {
        (q + 1) as u64
    }
}

/// A 180th of `x`, in 24 bits.
spec fn share_bits(x: u64) -> u64 {
    near(x << share_shift(x), 180)
}

/// The bits that 450 shares have beyond 24.
spec fn span_shift(x: u64) -> u64 {
    if share_bits(x) * 450 >= 0x1_0000_0000 {
        9
    } else {
        8
    }
}

/// 450 shares, in 24 bits.
spec fn span_bits(x: u64) -> u64 {
    near_shift((share_bits(x) * 450) as u64, span_shift(x))
}

/// The bits behind the point of a sum of 24 bits between 150 and 788.
spec fn sum_point(x: u64) -> u64 {
    if x <= 42 {
        16
    } else if x <= 144 {
        15
    } else {
        14
    }
}

/// 150 and the span together, before rounding.
spec fn sum_raw(x: u64) -> u64 {
    ((150u64 << ((share_shift(x) - span_shift(x)) as u64)) + span_bits(x)) as u64
}

/// The bits that the sum has beyond 24.
spec fn sum_shift(x: u64) -> u64 {
    (share_shift(x) - span_shift(x) - sum_point(x)) as u64
}

/// 150 and the span together, in 24 bits.
spec fn sum_bits(x: u64) -> u64 {
    near_shift(sum_raw(x), sum_shift(x))
}

proof fn lemma_share_bits(x: u64)
    by (bit_vector)
    requires
        0 < x < 256,
    ensures
        0x5A00_0000 <= (x << share_shift(x)) < 0xB400_0000,
        23 <= share_shift(x) <= 31,
        0x80_0000 <= share_bits(x) < 0x100_0000,
{
}

proof fn lemma_span_bits(x: u64)
    by (bit_vector)
    requires
        0 < x < 256,
    ensures
        8 <= span_shift(x) <= 9,
        (0x80_0000u64 << span_shift(x)) <= share_bits(x) * 450,
        share_bits(x) * 450 < (0x100_0000u64 << span_shift(x)),
        0x80_0000 <= span_bits(x) < 0x100_0000,
{
}

proof fn lemma_sum_bits(x: u64)
    by (bit_vector)
    requires
        0 < x < 256,
    ensures
        share_shift(x) >= span_shift(x) + sum_point(x),
        sum_shift(x) <= 6,
        sum_raw(x) == (150u64 << ((share_shift(x) - span_shift(x)) as u64)) + span_bits(x),
        (0x80_0000u64 << sum_shift(x)) <= sum_raw(x),
        sum_raw(x) < (0x100_0000u64 << sum_shift(x)),
        sum_bits(x) < 0x100_0000,
        (sum_bits(x) >> sum_point(x)) == 150 + 5 * x / 2,
{
}

proof fn lemma_near(n: u64, d: u64)
    requires
        d > 0,
        n < u64::MAX,
    ensures
        near(n, d) == Number::nearest_even(n as nat, d as nat),
{
    lemma_div_nonincreasing(n as int, d as int);
}

proof fn lemma_near_shift(n: u64, t: u64)
    requires
        n < 0x8000_0000_0000_0000,
        t <= 31,
    ensures
        near_shift(n, t) == Number::nearest_even(n as nat, pow2(t as nat)),
{
    let q = n >> t;
    let d = pow2(t as nat);
    lemma_shl(1, t);
    lemma_pow2_pos(t as nat);
    lemma_u64_shr_is_div(n, t);
    lemma_div_nonincreasing(n as int, d as int);
    lemma_fundamental_div_mod(n as int, d as int);
    assert(q * d == d * q) by (nonlinear_arith);
    lemma_u64_shl_is_mul(q, t);
    assert(q & 1 == q % 2) by (bit_vector);
}

/// Rounding a whole number of units that has `t` bits more than 24.
proof fn lemma_round_wide(n: nat, t: nat, e: nat)
    requires
        0x80_0000 * pow2(t) <= n < 0x100_0000 * pow2(t),
    ensures
        Number::round_mag(n * pow2(e), 1) == Number::nearest_even(n, pow2(t)) * pow2(t + e),
{
    lemma_pow2_pos(t);
    crate::single::lemma_whole_shift(n, t, e);
    crate::number::lemma_round_normal(n, pow2(t), t + e);
}

proof fn lemma_shl(x: u64, s: u64)
    requires
        x <= 0x100_0000,
        s <= 31,
    ensures
        (x << s) == x * pow2(s as nat),
        pow2(s as nat) <= 0x8000_0000,
{
    lemma2_to64();
    if s < 31 {
        lemma_pow2_strictly_increases(s as nat, 31);
    }
    assert(x * pow2(s as nat) <= 0x100_0000 * 0x8000_0000) by (nonlinear_arith)
        requires
            x <= 0x100_0000,
            pow2(s as nat) <= 0x8000_0000,
    ;
    lemma_u64_shl_is_mul(x, s);
}

proof fn lemma_some_degrees(degrees: nat)
    requires
        0 < degrees < 256,
    ensures
        servo_pulse(Number::ratio(degrees, 1)) == 150 + 5 * degrees / 2,
{
    let one = Number::one();
    lemma_pow2_pos(149);
    crate::curve::lemma_whole(degrees);
    crate::curve::lemma_whole(150);
    crate::curve::lemma_whole(180);
    crate::curve::lemma_whole(450);
    let angle = Number::ratio(degrees, 1);
    let x = degrees as u64;
    lemma_share_bits(x);
    lemma_span_bits(x);
    lemma_sum_bits(x);
    let s = share_shift(x);
    let t = span_shift(x);
    let f = (s - t) as u64;
    let g = sum_point(x);
    let u = sum_shift(x);
    let m1 = share_bits(x);
    let m2 = span_bits(x);
    let m3 = sum_bits(x);
    // the share: a 180th of the angle
    let e1 = (149 - s) as nat;
    lemma_shl(x, s);
    lemma_near(x << s, 180);
    lemma_pow2_adds(s as nat, e1);
    let xs = (x * pow2(s as nat)) as nat;
    assert(degrees * one == xs * pow2(e1)) by (nonlinear_arith)
        requires
            one == pow2(s as nat) * pow2(e1),
            xs == x * pow2(s as nat),
            x == degrees,
    ;
    assert((degrees * one) * one == one * (degrees * one) && 180 * one == one * 180)
        by (nonlinear_arith);
    crate::number::lemma_round_scale(degrees * one, 180, one);
    crate::number::lemma_round_normal(xs, 180, e1);
    crate::single::lemma_finite_bound(m1 as nat, e1);
    let share = angle.over(Number::ratio(180, 1));
    assert(share == (Number::Finite { neg: false, mag: m1 as nat * pow2(e1) }));
    // 450 shares
    let e2 = (149 - f) as nat;
    lemma_shl(1, t);
    lemma_shl(0x80_0000, t);
    lemma_shl(0x100_0000, t);
    let w = (m1 * 450) as nat;
    lemma_near_shift(w as u64, t);
    assert((m1 as nat * pow2(e1)) * (450 * one) == one * (w * pow2(e1)) && one * 1 == one)
        by (nonlinear_arith)
        requires
            w == m1 * 450,
    ;
    crate::number::lemma_round_scale(w * pow2(e1), 1, one);
    lemma_round_wide(w, t as nat, e1);
    assert(t as nat + e1 == e2);
    crate::single::lemma_finite_bound(m2 as nat, e2);
    let part = share.times(Number::ratio(450, 1));
    assert(part == (Number::Finite { neg: false, mag: m2 as nat * pow2(e2) }));
    // the sum
    let e3 = (149 - g) as nat;
    lemma_shl(150, f);
    lemma_shl(1, u);
    lemma_shl(0x80_0000, u);
    lemma_shl(0x100_0000, u);
    let n = sum_raw(x) as nat;
    lemma_near_shift(n as u64, u);
    lemma_pow2_adds(f as nat, e2);
    assert(150 * one + m2 as nat * pow2(e2) == n * pow2(e2)) by (nonlinear_arith)
        requires
            one == pow2(f as nat) * pow2(e2),
            n == 150 * pow2(f as nat) + m2,
    ;
    lemma_round_wide(n, u as nat, e2);
    assert(u as nat + e2 == e3);
    crate::single::lemma_finite_bound(m3 as nat, e3);
    let sum = Number::ratio(150, 1).plus(part);
    assert(sum == (Number::Finite { neg: false, mag: m3 as nat * pow2(e3) }));
    // its whole part
    crate::single::lemma_count_shift(m3 as nat, e3);
    lemma_u64_shr_is_div(m3, g);
}

/// A whole number of degrees gives 150 and two and a half for each degree, rounded down.
pub proof fn law_whole_degrees(degrees: nat)
    requires
        degrees < 256,
    ensures
        servo_pulse(Number::ratio(degrees, 1)) == 150 + 5 * degrees / 2,
{
    if degrees == 0 {
        let angle = Number::ratio(0, 1);
        crate::curve::lemma_whole(0);
        assert(0 * Number::one() == 0);
        law_servo_pulse(angle, angle);
    } else {
        lemma_some_degrees(degrees);
    }
}

/// The pulse of an angle of the servos is within one count of 150 and two and a half for each
/// degree, but for a 4096th of a count that rounding may take.
pub proof fn law_pulse_near(angle: Number)
    requires
        is_servo_angle(angle),
    ensures
        ({
            let one = Number::one();
            let twice = 300 * one + 5 * angle.place();
            &&& 4096 * (2 * (servo_pulse(angle) * one)) <= 4096 * twice + one
            &&& 4096 * twice < 4096 * (2 * ((servo_pulse(angle) + 1) * one)) + one
        }),
{
    let one = Number::one();
    let mag = angle->mag;
    lemma2_to64();
    lemma_pow2_pos(149);
    let t = pow2(125);
    crate::number::lemma_part(24);
    lemma_pow2_adds(1, 125);
    lemma_pow2_adds(8, 125);
    lemma_pow2_adds(9, 125);
    lemma_pow2_adds(10, 125);
    let full = 180 * one;
    // the share of the span
    let share = Number::round_mag(mag * one, full);
    assert(mag * one <= full * one && full * one < 0x100_0000 * (full * pow2(126))) by (
        nonlinear_arith)
        requires
            mag <= full,
            one == 0x100_0000 * t,
            pow2(126) == 2 * t,
            full > 0,
            t > 0,
    ;
    crate::number::lemma_round_err(mag * one, full, 126);
    lemma_span_part(mag, mag);
    // 450 of it
    let top = 450 * one;
    let part = span_part(mag);
    assert(share * top <= one * top && one * top < 0x100_0000 * (one * pow2(134))) by (
        nonlinear_arith)
        requires
            share <= one,
            top == 450 * one,
            one == 0x100_0000 * t,
            pow2(134) == 512 * t,
            t > 0,
    ;
    crate::number::lemma_round_err(share * top, one, 134);
    // the sum
    let at = 150 * one + part;
    assert(1 * pow2(135) == pow2(135));
    crate::number::lemma_round_err(at, 1, 135);
    lemma_servo_pulse(angle);
    let sum = Number::round_mag(at, 1);
    assert(sum * 1 == sum);
    let e1 = share * full - mag * one;
    let e2 = part * one - share * top;
    assert(180 * share - mag <= 180 * t && mag - 180 * share <= 180 * t) by (nonlinear_arith)
        requires
            2 * (share * full - mag * one) <= full * (2 * t),
            2 * (mag * one - share * full) <= full * (2 * t),
            full == 180 * one,
            one > 0,
    ;
    assert(2 * (part - 450 * share) <= 512 * t && 2 * (450 * share - part) <= 512 * t) by (
        nonlinear_arith)
        requires
            2 * (part * one - share * top) <= one * (512 * t),
            2 * (share * top - part * one) <= one * (512 * t),
            top == 450 * one,
            one > 0,
    ;
    let p = servo_pulse(angle);
    lemma_fundamental_div_mod(sum as int, one as int);
    let left = sum as int % one as int;
    assert(p * one <= sum && sum < (p + 1) * one) by (nonlinear_arith)
        requires
            sum == one * p + left,
            0 <= left < one,
    ;
}

/// Beyond the range of the servos the pulse goes on in the same way, until the counts end: from 0
/// to 65535 it is within a 32nd of a count of 150 and two and a half for each degree.
pub proof fn law_pulse_near_beyond(angle: Number)
    requires
        angle is Finite,
        -32768 * Number::one() <= angle.place() <= 32768 * Number::one(),
    ensures
        ({
            let one = Number::one();
            let twice = 300 * one + 5 * angle.place();
            &&& servo_pulse(angle) > 0 ==> 32 * (2 * (servo_pulse(angle) * one)) <= 32 * twice + one
            &&& servo_pulse(angle) < 65535 ==> 32 * twice < 32 * (2 * ((servo_pulse(angle) + 1)
                * one)) + one
        }),
{
    let one = Number::one();
    lemma2_to64();
    lemma_pow2_pos(149);
    let t = pow2(133);
    crate::number::lemma_part(16);
    lemma_pow2_adds(9, 133);
    lemma_pow2_adds(10, 133);
    crate::curve::lemma_whole(150);
    crate::curve::lemma_whole(180);
    crate::curve::lemma_whole(450);
    let full = Number::ratio(180, 1);
    let span = Number::ratio(450, 1);
    let x = angle.place();
    assert(-0x100_0000 * ((180 * one) * t) < x * one < 0x100_0000 * ((180 * one) * t)) by (
        nonlinear_arith)
        requires
            -32768 * one <= x <= 32768 * one,
            one == 65536 * t,
            t > 0,
    ;
    crate::number::lemma_over_near(angle, full, 133);
    let share = angle.over(full);
    let y = share.place();
    assert(2 * (180 * y - x) <= 180 * t && 2 * (x - 180 * y) <= 180 * t) by (nonlinear_arith)
        requires
            2 * (y * (180 * one) - x * one) <= (180 * one) * t,
            2 * (x * one - y * (180 * one)) <= (180 * one) * t,
            one > 0,
    ;
    assert(-0x100_0000 * (one * (512 * t)) < y * (450 * one) < 0x100_0000 * (one * (512 * t))) by (
        nonlinear_arith)
        requires
            -200 * one <= y <= 200 * one,
            one == 65536 * t,
            t > 0,
    ;
    crate::number::lemma_times_near(share, span, 142);
    let part = share.times(span);
    let z = part.place();
    assert(2 * (z - 450 * y) <= 512 * t && 2 * (450 * y - z) <= 512 * t) by (nonlinear_arith)
        requires
            2 * (z * one - y * (450 * one)) <= one * (512 * t),
            2 * (y * (450 * one) - z * one) <= one * (512 * t),
            one > 0,
    ;
    crate::number::lemma_plus_near(Number::ratio(150, 1), part, 143);
    let sum = Number::ratio(150, 1).plus(part);
    let p = servo_pulse(angle);
    if let Number::Finite { neg, mag } = sum {
        lemma_fundamental_div_mod(mag as int, one as int);
        let q = mag as int / one as int;
        let left = mag as int % one as int;
        assert(q * one <= mag && mag < (q + 1) * one) by (nonlinear_arith)
            requires
                mag == one * q + left,
                0 <= left < one,
        ;
        if !neg && q > 65535 {
            assert(65536 * one <= mag) by (nonlinear_arith)
                requires
                    q >= 65536,
                    q * one <= mag,
                    one > 0,
            ;
        }
    }
}

/// Servo angles lie between 0 and 180 degrees.
pub proof fn law_servo_angles(angle: Number)
    ensures
        is_servo_angle(angle) <==> angle is Finite && 0 <= angle.place() <= 180 * Number::one(),
{
    lemma_pow2_pos(149);
}

/// What is no number gives no pulse.
pub proof fn law_pulse_of_nan()
    ensures
        servo_pulse(Number::Nan) == 0,
{
}

/// A vertical pulse is 150 and 5 for each degree, up to 89 degrees.
pub proof fn law_vertical_degrees(y_angle: u32)
    ensures
        y_angle <= 89 ==> vertical_pulse(y_angle) == 150 + 5 * y_angle,
        y_angle >= 89 ==> vertical_pulse(y_angle) == 595,
        pulse_messages(y_angle).len() == if y_angle < 6 {
            4int
        } else {
            3int
        },
        pulse_messages(y_angle)[0] == (Message::AngleLimited {
            angle: if y_angle <= 89 {
                y_angle
            } else {
                89
            },
        }),
        pulse_messages(y_angle)[1] matches Message::PulseRaw { pulse } && pulse == (if y_angle
            <= 89 {
            150 + 5 * y_angle
        } else {
            595
        }),
        pulse_messages(y_angle)[2] matches Message::PulseLimited { pulse } && pulse == (if y_angle
            <= 89 {
            150 + 5 * y_angle
        } else {
            595
        }),
        y_angle < 6 ==> (pulse_messages(y_angle)[3] matches Message::PulseLow { pulse } && pulse
            == 150 + 5 * y_angle),
{
}

} // verus!
