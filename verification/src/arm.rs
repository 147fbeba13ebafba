//! The arm as the controller holds it: joint angles, jogging, and moves in degrees.

use std::marker::PhantomData;

use vstd::arithmetic::power2::*;
use vstd::prelude::*;

use crate::cosines::Cosines;
use crate::curve::{ease, phases};
use crate::number::Number;
use crate::pulse::angle_to_pulse;
use crate::single::Single;
use crate::step::{Channel, Step};

verus! {

/// The joints of the arm and which of them is being jogged.
pub struct RobotArmController {
    /// The selected joint, 0 to 5.
    pub master_id: usize,
    /// The angle of each joint, in degrees.
    pub angles: [Single; 6],
    /// Whether the arm is locked for safety.
    pub is_locked: bool,
}

/// Whether a joint is mounted the other way round.
pub open spec fn is_reversed(id: usize) -> bool {
    id == 1 || id == 4
}

/// The sense in which a joint turns.
pub open spec fn motor_direction(id: usize) -> Number {
    if is_reversed(id) {
        Number::ratio(1, 1).negated()
    } else {
        Number::ratio(1, 1)
    }
}

/// How strongly a joint answers to being lifted.
pub open spec fn motor_weight(id: usize) -> Number {
    if id == 1 {
        Number::ratio(5, 2)
    } else if id == 3 {
        Number::ratio(9, 5)
    } else if id == 4 {
        Number::ratio(3, 2)
    } else {
        Number::ratio(6, 5)
    }
}

/// How strongly a joint answers to `joy_delta`: with its weight when it is lifted, against
/// gravity, and with 0.7 otherwise.
pub open spec fn motor_power(id: usize, joy_delta: Number) -> Number {
    if Number::ratio(0, 1).below(joy_delta) {
        motor_weight(id)
    } else {
        Number::ratio(7, 10)
    }
}

/// The angle of joint `id` after it was jogged by `joy_delta`.
pub open spec fn jogged(angle: Number, id: usize, joy_delta: Number) -> Number {
    angle.plus(joy_delta.times(motor_direction(id)).times(motor_power(id, joy_delta))).clamped(
        Number::ratio(0, 1),
        Number::ratio(180, 1),
    )
}

impl RobotArmController {
    /// All joints in the middle, the first one selected.
    pub fn new() -> (c: Self)
        ensures
            c.master_id == 0,
            forall|i: int| 0 <= i < 6 ==> (#[trigger] c.angles@[i])@ == Number::ratio(90, 1),
            !c.is_locked,
    {
        let middle: Single = Single::ratio(90, 1);
        RobotArmController { master_id: 0, angles: [middle; 6], is_locked: false }
    }

    /// The direction and the weight of the selected joint.
    pub fn get_motor_traits(&self) -> (t: (Single, Single))
        ensures
            t.0@ == motor_direction(self.master_id),
            t.1@ == motor_weight(self.master_id),
    {
        let forward: Single = Single::ratio(1, 1);
        if self.master_id == 1 {
            (forward.negated(), Single::ratio(5, 2))
        } else if self.master_id == 3 {
            (forward, Single::ratio(9, 5))
        } else if self.master_id == 4 {
            (forward.negated(), Single::ratio(3, 2))
        } else {
            (forward, Single::ratio(6, 5))
        }
    }

    /// Jogs the selected joint, within 0 to 180 degrees.
    pub fn apply_move(&mut self, joy_delta: Single)
        requires
            old(self).master_id < 6,
        ensures
            final(self).master_id == old(self).master_id,
            final(self).is_locked == old(self).is_locked,
            final(self).angles@[old(self).master_id as int]@ == jogged(
                old(self).angles@[old(self).master_id as int]@,
                old(self).master_id,
                joy_delta@,
            ),
            forall|i: int|
                0 <= i < 6 && i != old(self).master_id ==> #[trigger] final(self).angles@[i] == old(
                    self,
                ).angles@[i],
    {
        let traits: (Single, Single) = self.get_motor_traits();
        let power: Single = if Single::ratio(0, 1).below(joy_delta) {
            traits.1
        } else {
            Single::ratio(7, 10)
        };
        let final_delta: Single = joy_delta.times(traits.0).times(power);
        let id: usize = self.master_id;
        let moved: Single = self.angles[id].plus(final_delta).clamped(
            Single::ratio(0, 1),
            Single::ratio(180, 1),
        );
        self.angles[id] = moved;
    }
}

/// Steps of `RobotArm3Axis::move_to_target`, after the one at the start.
pub const STEPS: u32 = 60;

/// An arm of three joints that is moved in degrees.
pub struct RobotArm3Axis<I2C> {
    /// The angle of each joint, in degrees.
    pub current_angles: [Single; 3],
    /// The bus that the servo board of the arm sits on.
    pub _marker: PhantomData<I2C>,
}

/// The channels of the three joints.
pub open spec fn axis_channels() -> Seq<Channel> {
    seq![Channel::C0, Channel::C1, Channel::C2]
}

/// The angle on the way from `start` to `target` when the share `w` is done, brought into 0 to
/// 180 degrees.
pub open spec fn angle_between(start: Number, target: Number, w: Number) -> Number {
    start.plus(target.minus(start).times(w)).clamped(Number::ratio(0, 1), Number::ratio(180, 1))
}

/// What is written to joint `a` when the cosine of the phase is `cosine`.
pub open spec fn axis_write(
    starts: Seq<Single>,
    targets: Seq<Single>,
    cosine: Single,
    a: int,
) -> Step {
    Step::Write {
        channel: axis_channels()[a],
        on: 0,
        off: crate::pulse::servo_pulse(
            angle_between(starts[a]@, targets[a]@, crate::curve::weight(cosine@)),
        ),
    }
}

/// The angles of every joint are finite, and so is the distance between them.
pub open spec fn are_finite(starts: Seq<Single>, targets: Seq<Single>) -> bool {
    forall|a: int|
        0 <= a < 3 ==> (#[trigger] starts[a])@ is Finite && targets[a]@ is Finite
            && targets[a]@.minus(starts[a]@) is Finite
}

/// One step of a move: the three joints are written, then comes a pause.
pub open spec fn axis_frame(
    starts: Seq<Single>,
    targets: Seq<Single>,
    cosine: Single,
) -> Seq<Step> {
    Seq::new(3, |a: int| axis_write(starts, targets, cosine, a)).push(Step::Pause { ms: 20 })
}

/// A whole move: one step for each cosine.
pub open spec fn axis_plan(
    starts: Seq<Single>,
    targets: Seq<Single>,
    cosines: Seq<Single>,
) -> Seq<Step>
    decreases cosines.len(),
{
    if cosines.len() == 0 {
        Seq::empty()
    } else {
        axis_plan(starts, targets, cosines.drop_last()) + axis_frame(
            starts,
            targets,
            cosines.last(),
        )
    }
}

/// The phases of a move of the three joints: the start, and 60 steps after it.
pub fn axis_phases() -> (r: Vec<Single>)
    ensures
        r@.len() == STEPS + 1,
        forall|i: int|
            0 <= i < r@.len() ==> (#[trigger] r@[i])@ == crate::curve::phase(
                i as nat,
                STEPS as nat,
            ),
{
    phases(0, STEPS)
}

impl<I2C> RobotArm3Axis<I2C> {
    /// Moves the three joints together, in 60 steps after the one at the start. `cosines` holds
    /// the cosines of the `axis_phases`.
    pub fn move_to_target(&mut self, target_angles: [Single; 3], cosines: &Cosines) -> (r: Vec<
        Step,
    >)
        requires
            cosines@.len() == STEPS + 1,
        ensures
            final(self).current_angles == target_angles,
            final(self)._marker == old(self)._marker,
            r@ == axis_plan(old(self).current_angles@, target_angles@, cosines@),
            are_finite(old(self).current_angles@, target_angles@) ==> crate::glide::writes_within(
                r@,
                crate::pulse::SERVO_MIN,
                crate::pulse::SERVO_MAX,
            ),
    {
        let starts: [Single; 3] = self.current_angles;
        let channels: [Channel; 3] = [Channel::C0, Channel::C1, Channel::C2];
        let low: Single = Single::ratio(0, 1);
        let high: Single = Single::ratio(180, 1);
        assert(channels@ =~= axis_channels());
        let mut r: Vec<Step> = Vec::new();
        let mut step: usize = 0;
        while step < cosines.len()
            invariant
                step <= cosines@.len(),
                channels@ == axis_channels(),
                low@ == Number::ratio(0, 1),
                high@ == Number::ratio(180, 1),
                r@ == axis_plan(starts@, target_angles@, cosines@.take(step as int)),
            decreases cosines@.len() - step,
        {
            let s: Single = ease(cosines.at(step));
            let ghost before = r@;
            let ghost cosine = cosines@[step as int];
            let mut i: usize = 0;
            while i < 3
                invariant
                    i <= 3,
                    channels@ == axis_channels(),
                    low@ == Number::ratio(0, 1),
                    high@ == Number::ratio(180, 1),
                    s@ == crate::curve::weight(cosine@),
                    r@ == before + Seq::new(
                        i as nat,
                        |a: int| axis_write(starts@, target_angles@, cosine, a),
                    ),
                decreases 3 - i,
            {
                let way: Single = target_angles[i].minus(starts[i]).times(s);
                let safe_angle: Single = starts[i].plus(way).clamped(low, high);
                let pulse: u16 = self.angle_to_pulse(safe_angle);
                r.push(Step::Write { channel: channels[i], on: 0, off: pulse });
                i = i + 1;
            }
            r.push(Step::Pause { ms: 20 });
            assert(cosines@.take(step + 1).drop_last() =~= cosines@.take(step as int));
            assert(r@ =~= before + axis_frame(starts@, target_angles@, cosine));
            step = step + 1;
        }
        assert(cosines@.take(step as int) =~= cosines@);
        proof {
            use_type_invariant(cosines);
            lemma_way_within(starts@, target_angles@, cosines@);
        }
        self.current_angles = target_angles;
        r
    }

    /// The pulse of an angle in degrees.
    pub fn angle_to_pulse(&self, angle: Single) -> (pulse: u16)
        ensures
            pulse == crate::pulse::servo_pulse(angle@),
    {
        angle_to_pulse(angle)
    }
}

/// Clamping gives a servo angle, or nothing where there was no number.
proof fn lemma_clamped(x: Number)
    ensures
        ({
            let r = x.clamped(Number::ratio(0, 1), Number::ratio(180, 1));
            (x == Number::Nan && r == Number::Nan) || (x != Number::Nan
                && crate::pulse::is_servo_angle(r))
        }),
{
    crate::curve::lemma_whole(0);
    crate::curve::lemma_whole(180);
    lemma_pow2_pos(149);
    assert(0 * Number::one() == 0);
}

proof fn lemma_ratio_positive(num: nat, den: nat)
    requires
        0 < num <= 5 * den,
        0 < den <= 10,
    ensures
        Number::ratio(num, den) matches Number::Finite { neg, mag } && !neg && mag > 0,
{
    let one = Number::one();
    lemma2_to64();
    lemma_pow2_strictly_increases(4, 149);
    crate::curve::lemma_whole(5);
    crate::number::lemma_round_exact(1, 0);
    assert(1 * den <= (num * one) * 1 && (num * one) * 1 <= (5 * one) * den) by (nonlinear_arith)
        requires
            0 < num <= 5 * den,
            den <= one,
    ;
    crate::number::lemma_round_monotone(1, 1, num * one, den);
    crate::number::lemma_round_monotone(num * one, den, 5 * one, 1);
}

proof fn lemma_power_positive(id: usize, joy_delta: Number)
    ensures
        motor_power(id, joy_delta) matches Number::Finite { neg, mag } && !neg && mag > 0,
{
    lemma_ratio_positive(5, 2);
    lemma_ratio_positive(9, 5);
    lemma_ratio_positive(3, 2);
    lemma_ratio_positive(6, 5);
    lemma_ratio_positive(7, 10);
}

/// A jogged joint is within 0 to 180 degrees or has no number for an angle. It has one wherever
/// it started from a finite angle and the stick gave a number.
pub proof fn law_jog_in_range(angle: Number, id: usize, joy_delta: Number)
    ensures
        jogged(angle, id, joy_delta) == Number::Nan || crate::pulse::is_servo_angle(
            jogged(angle, id, joy_delta),
        ),
        angle is Finite && joy_delta != Number::Nan ==> crate::pulse::is_servo_angle(
            jogged(angle, id, joy_delta),
        ),
        angle == Number::Nan || joy_delta == Number::Nan ==> jogged(angle, id, joy_delta)
            == Number::Nan,
{
    lemma_clamped(
        angle.plus(joy_delta.times(motor_direction(id)).times(motor_power(id, joy_delta))),
    );
    lemma_ratio_positive(1, 1);
    lemma_power_positive(id, joy_delta);
}

/// A joint follows the stick, or goes against it where the joint is mounted the other way round;
/// it never moves the other way, and a stick at rest leaves it where it is.
#[verifier::spinoff_prover]
pub proof fn law_jog_direction(angle: Single, id: usize, joy_delta: Single)
    requires
        crate::pulse::is_servo_angle(angle@),
        joy_delta@ != Number::Nan,
    ensures
        jogged(angle@, id, joy_delta@) != Number::Nan,
        joy_delta@.place() == 0 ==> jogged(angle@, id, joy_delta@).place() == angle@.place(),
        joy_delta@.place() > 0 && !is_reversed(id) ==> jogged(angle@, id, joy_delta@).place()
            >= angle@.place(),
        joy_delta@.place() > 0 && is_reversed(id) ==> jogged(angle@, id, joy_delta@).place()
            <= angle@.place(),
        joy_delta@.place() < 0 && !is_reversed(id) ==> jogged(angle@, id, joy_delta@).place()
            <= angle@.place(),
        joy_delta@.place() < 0 && is_reversed(id) ==> jogged(angle@, id, joy_delta@).place()
            >= angle@.place(),
{
    let one = Number::one();
    lemma_pow2_pos(149);
    lemma_pow2_pos(277);
    crate::curve::lemma_whole(0);
    crate::curve::lemma_whole(1);
    crate::curve::lemma_whole(180);
    assert(0 * one == 0 && 1 * one == one);
    lemma_power_positive(id, joy_delta@);
    let power = motor_power(id, joy_delta@);
    let turned = joy_delta@.times(motor_direction(id));
    match joy_delta@ {
        Number::Finite { neg, mag } => {
            crate::single::lemma_finite_exact(joy_delta);
            assert(mag * one == one * mag && one * 1 == one) by (nonlinear_arith);
            crate::number::lemma_round_scale(mag, 1, one);
            assert(turned == (Number::Finite { neg: neg != is_reversed(id), mag }));
            if mag == 0 {
                assert(0 * power->mag == one * 0 && one * 1 == one) by (nonlinear_arith);
                crate::number::lemma_round_scale(0, 1, one);
            }
        },
        Number::Infinite { neg } => {
            assert(turned == (Number::Infinite { neg: neg != is_reversed(id) }));
        },
        Number::Nan => {},
    }
    let delta = turned.times(power);
    assert(joy_delta@.place() == 0 ==> delta.place() == 0);
    let sum = angle@.plus(delta);
    crate::single::lemma_finite_exact(angle);
    let am = angle@->mag;
    if let Number::Finite { neg, mag } = delta {
        let at = angle@.place() + Number::signed(neg, mag);
        if at > 0 {
            if neg {
                crate::number::lemma_round_monotone(at as nat, 1, am, 1);
            } else {
                crate::number::lemma_round_monotone(am, 1, at as nat, 1);
            }
        }
    }
    assert(delta.place() <= 0 ==> sum.place() <= angle@.place());
    assert(delta.place() >= 0 ==> sum.place() >= angle@.place());
}

/// An angle on the way is within the limits of the servos, and so is its pulse, as long as the
/// angle is a number at all.
pub proof fn law_soft_limit(start: Number, target: Number, w: Number)
    requires
        angle_between(start, target, w) != Number::Nan,
    ensures
        crate::pulse::is_servo_angle(angle_between(start, target, w)),
        crate::pulse::SERVO_MIN <= crate::pulse::servo_pulse(angle_between(start, target, w))
            <= crate::pulse::SERVO_MAX,
{
    let angle = angle_between(start, target, w);
    lemma_clamped(start.plus(target.minus(start).times(w)));
    crate::pulse::law_servo_pulse(angle, angle);
}

/// Between two finite angles whose distance is finite, the angles on the way are numbers.
pub proof fn law_way_is_number(start: Number, target: Number, w: Number)
    requires
        start is Finite,
        target is Finite,
        target.minus(start) is Finite,
        crate::curve::is_share(w),
    ensures
        angle_between(start, target, w) != Number::Nan,
{
    lemma_clamped(start.plus(target.minus(start).times(w)));
}

/// The more of the way is done, the further the pulse is on it: it never turns back.
#[verifier::spinoff_prover]
proof fn lemma_way_order(start: Single, target: Single, w1: Number, w2: Number)
    requires
        crate::curve::is_share(w1),
        crate::curve::is_share(w2),
        w1.place() <= w2.place(),
        angle_between(start@, target@, w1) != Number::Nan,
        angle_between(start@, target@, w2) != Number::Nan,
    ensures
        start@.place() <= target@.place() ==> crate::pulse::servo_pulse(
            angle_between(start@, target@, w1),
        ) <= crate::pulse::servo_pulse(angle_between(start@, target@, w2)),
        target@.place() <= start@.place() ==> crate::pulse::servo_pulse(
            angle_between(start@, target@, w2),
        ) <= crate::pulse::servo_pulse(angle_between(start@, target@, w1)),
{
    lemma_pow2_pos(149);
    lemma_pow2_strictly_increases(149, 277);
    lemma_pow2_pos(277);
    crate::curve::lemma_whole(0);
    crate::curve::lemma_whole(180);
    assert(0 * Number::one() == 0);
    let low = Number::ratio(0, 1);
    let high = Number::ratio(180, 1);
    let diff = target@.minus(start@);
    let way1 = diff.times(w1);
    let way2 = diff.times(w2);
    let at1 = start@.plus(way1);
    let at2 = start@.plus(way2);
    lemma_clamped(at1);
    lemma_clamped(at2);
    assert(start@ is Finite);
    crate::single::lemma_finite_exact(start);
    if target@ is Finite {
        crate::single::lemma_finite_exact(target);
    }
    assert(diff != Number::Nan);
    // the way has the sign of the distance
    let back = start@.negated();
    if start@.place() <= target@.place() {
        crate::number::lemma_plus_order(start@, target@, back);
        assert(diff.place() >= 0);
    }
    if target@.place() <= start@.place() {
        crate::number::lemma_plus_order(target@, start@, back);
        assert(diff.place() <= 0);
    }
    crate::number::lemma_times_commutes(diff, w1);
    crate::number::lemma_times_commutes(diff, w2);
    crate::number::lemma_times_order(w1, w2, diff);
    assert(at1 == way1.plus(start@) && at2 == way2.plus(start@));
    if start@.place() <= target@.place() {
        crate::number::lemma_plus_order(way1, way2, start@);
        crate::number::lemma_clamped_order(at1, at2, low, high);
        crate::pulse::law_pulse_order(
            angle_between(start@, target@, w1),
            angle_between(start@, target@, w2),
        );
    }
    if target@.place() <= start@.place() {
        crate::number::lemma_plus_order(way2, way1, start@);
        crate::number::lemma_clamped_order(at2, at1, low, high);
        crate::pulse::law_pulse_order(
            angle_between(start@, target@, w2),
            angle_between(start@, target@, w1),
        );
    }
}

proof fn lemma_axis_length(starts: Seq<Single>, targets: Seq<Single>, cosines: Seq<Single>)
    ensures
        axis_plan(starts, targets, cosines).len() == 4 * cosines.len(),
    decreases cosines.len(),
{
    if cosines.len() > 0 {
        lemma_axis_length(starts, targets, cosines.drop_last());
    }
}

/// The four steps of step `i` of a move in degrees, counted from `4 * i`.
#[verifier::spinoff_prover]
proof fn lemma_axis_step(
    starts: Seq<Single>,
    targets: Seq<Single>,
    cosines: Seq<Single>,
    i: int,
    k: int,
)
    requires
        0 <= i < cosines.len(),
        0 <= k < 4,
    ensures
        axis_plan(starts, targets, cosines)[4 * i + k] == axis_frame(
            starts,
            targets,
            cosines[i],
        )[k],
    decreases cosines.len(),
{
    let before = cosines.drop_last();
    lemma_axis_length(starts, targets, before);
    crate::glide::lemma_behind(
        axis_plan(starts, targets, before),
        axis_frame(starts, targets, cosines.last()),
        4 * i + k,
    );
    if i < before.len() {
        lemma_axis_step(starts, targets, before, i, k);
    }
}

/// Step `i` of a move in degrees is the four steps from `4 * i` on.
#[verifier::spinoff_prover]
pub proof fn law_axis_steps(
    starts: Seq<Single>,
    targets: Seq<Single>,
    cosines: Seq<Single>,
    i: int,
    a: int,
)
    requires
        0 <= i < cosines.len(),
        0 <= a < 3,
    ensures
        axis_plan(starts, targets, cosines).len() == 4 * cosines.len(),
        axis_plan(starts, targets, cosines)[4 * i + a] == axis_write(
            starts,
            targets,
            cosines[i],
            a,
        ),
        axis_plan(starts, targets, cosines)[4 * i + 3] == (Step::Pause { ms: 20 }),
{
    lemma_axis_length(starts, targets, cosines);
    lemma_axis_step(starts, targets, cosines, i, a);
    lemma_axis_step(starts, targets, cosines, i, 3);
}

/// A move in degrees writes only pulses that the servos know, as long as the angles on its way
/// are numbers.
#[verifier::spinoff_prover]
pub proof fn law_axis_within(starts: Seq<Single>, targets: Seq<Single>, cosines: Seq<Single>)
    requires
        forall|i: int, a: int|
            0 <= i < cosines.len() && 0 <= a < 3 ==> angle_between(
                (#[trigger] starts[a])@,
                targets[a]@,
                crate::curve::weight((#[trigger] cosines[i])@),
            ) != Number::Nan,
    ensures
        crate::glide::writes_within(
            axis_plan(starts, targets, cosines),
            crate::pulse::SERVO_MIN,
            crate::pulse::SERVO_MAX,
        ),
{
    let plan = axis_plan(starts, targets, cosines);
    lemma_axis_length(starts, targets, cosines);
    assert forall|k: int| 0 <= k < plan.len() implies match #[trigger] plan[k] {
        Step::Write { on, off, .. } => on == 0 && crate::pulse::SERVO_MIN <= off
            <= crate::pulse::SERVO_MAX,
        Step::TryWrite { on, off, .. } => on == 0 && crate::pulse::SERVO_MIN <= off
            <= crate::pulse::SERVO_MAX,
        _ => true,
    } by {
        let i = k / 4;
        let a = k % 4;
        if a < 3 {
            law_axis_steps(starts, targets, cosines, i, a);
            law_soft_limit(starts[a]@, targets[a]@, crate::curve::weight(cosines[i]@));
        } else {
            law_axis_steps(starts, targets, cosines, i, 0);
        }
    }
}

/// A move between finite angles writes only pulses that the servos know.
proof fn lemma_way_within(starts: Seq<Single>, targets: Seq<Single>, cosines: Seq<Single>)
    requires
        crate::cosines::are_cosines(cosines),
    ensures
        are_finite(starts, targets) ==> crate::glide::writes_within(
            axis_plan(starts, targets, cosines),
            crate::pulse::SERVO_MIN,
            crate::pulse::SERVO_MAX,
        ),
{
    if are_finite(starts, targets) {
        assert forall|i: int, a: int| 0 <= i < cosines.len() && 0 <= a < 3 implies angle_between(
            (#[trigger] starts[a])@,
            targets[a]@,
            crate::curve::weight((#[trigger] cosines[i])@),
        ) != Number::Nan by {
            crate::curve::law_weight_is_share(cosines[i]@);
            law_way_is_number(starts[a]@, targets[a]@, crate::curve::weight(cosines[i]@));
        }
        law_axis_within(starts, targets, cosines);
    }
}

/// All of the way between two whole degrees leads to the second one.
proof fn lemma_whole_arrival(from: nat, to: nat, w: Number)
    requires
        from <= 180,
        to <= 180,
        w == (Number::Finite { neg: false, mag: Number::one() }),
    ensures
        angle_between(Number::ratio(from, 1), Number::ratio(to, 1), w) == Number::ratio(to, 1),
{
    let one = Number::one();
    lemma_pow2_pos(149);
    let k: nat = if from <= to {
        (to - from) as nat
    } else {
        (from - to) as nat
    };
    crate::curve::lemma_whole(0);
    crate::curve::lemma_whole(from);
    crate::curve::lemma_whole(to);
    crate::curve::lemma_whole(k);
    crate::curve::lemma_whole(180);
    assert(0 * one == 0);
    assert(from <= to ==> to * one == from * one + k * one) by (nonlinear_arith)
        requires
            from <= to ==> to == from + k,
    ;
    assert(from > to ==> from * one == to * one + k * one) by (nonlinear_arith)
        requires
            from > to ==> from == to + k,
    ;
    assert(k > 0 ==> k * one > 0) by (nonlinear_arith)
        requires
            one > 0,
    ;
    assert(to * one <= 180 * one && (to > 0 ==> to * one > 0)) by (nonlinear_arith)
        requires
            to <= 180,
            one > 0,
    ;
    let start = Number::ratio(from, 1);
    let target = Number::ratio(to, 1);
    let diff = target.minus(start);
    assert(diff == (Number::Finite { neg: from > to, mag: k * one }));
    assert((k * one) * one == one * (k * one) && one * 1 == one) by (nonlinear_arith);
    crate::number::lemma_round_scale(k * one, 1, one);
    assert(diff.times(w) == diff);
    assert(start.plus(diff) == target);
}

/// A move between whole degrees whose last cosine is -1 ends with every joint at the pulse of its
/// target.
pub proof fn law_axis_arrives(
    starts: Seq<Single>,
    targets: Seq<Single>,
    cosines: Seq<Single>,
    a: int,
    from: nat,
    to: nat,
)
    requires
        0 <= a < 3,
        from <= 180,
        to <= 180,
        starts[a]@ == Number::ratio(from, 1),
        targets[a]@ == Number::ratio(to, 1),
        cosines.len() > 0,
        crate::curve::is_cosine(cosines.last()@),
        cosines.last()@.place() == -Number::one(),
    ensures
        ({
            let plan = axis_plan(starts, targets, cosines);
            plan[plan.len() - 4 + a] == (Step::Write {
                channel: axis_channels()[a],
                on: 0,
                off: (150 + 5 * to / 2) as u16,
            })
        }),
{
    lemma_pow2_pos(149);
    crate::curve::law_weight_is_share(cosines.last()@);
    crate::curve::law_weight_ends(cosines.last()@);
    law_axis_steps(starts, targets, cosines, cosines.len() - 1, a);
    lemma_whole_arrival(from, to, crate::curve::weight(cosines.last()@));
    crate::pulse::law_whole_degrees(to);
}

/// Multiplying with 1 changes nothing about what has been rounded.
proof fn lemma_times_one(a: Number, b: Number, w: Number)
    requires
        crate::number::is_held(a),
        crate::number::is_held(b),
        w == (Number::Finite { neg: false, mag: Number::one() }),
        a.plus(b) != Number::Nan,
    ensures
        a.plus(b).times(w) == a.plus(b),
{
    let one = Number::one();
    lemma_pow2_pos(149);
    lemma_pow2_pos(277);
    crate::curve::lemma_whole(0);
    assert(0 * one == 0);
    if let Number::Finite { mag, .. } = a.plus(b) {
        let sum = a.place() + b.place();
        let size: nat = if sum >= 0 {
            sum as nat
        } else {
            (-sum) as nat
        };
        crate::number::lemma_round_again(size, 1);
        assert(mag * one == one * mag && one * 1 == one) by (nonlinear_arith);
        crate::number::lemma_round_scale(mag, 1, one);
    }
}

/// The angle 180, less half the gap between its neighbours, rounds to 180 or more.
proof fn lemma_near_limit(num: nat)
    requires
        num >= 180 * Number::one() - pow2(132),
    ensures
        Number::round_mag(num, 1) >= 180 * Number::one(),
{
    let one = Number::one();
    lemma2_to64();
    lemma_pow2_unfold(133);
    lemma_pow2_adds(16, 133);
    let m: nat = 23592959;
    crate::number::lemma_round_normal(m, 2, 133);
    assert(Number::nearest_even(m, 2) == 11796480);
    assert(11796480 * pow2(133) == 180 * one && (m * pow2(133)) * 1 == 2 * (180 * one - pow2(132)))
        by (nonlinear_arith)
        requires
            one == 65536 * pow2(133),
            pow2(133) == 2 * pow2(132),
            m == 23592959,
    ;
    crate::number::lemma_round_monotone(m * pow2(133), 2, num, 1);
}

/// All of the way to 180 from within 256 degrees of it leads to 180 or more.
proof fn lemma_reaches_limit(start: Single)
    requires
        start@ is Finite,
        -76 * Number::one() < start@.place() < 436 * Number::one(),
    ensures
        start@.plus(Number::ratio(180, 1).minus(start@)).place() >= 180 * Number::one(),
{
    let one = Number::one();
    lemma2_to64();
    lemma_pow2_pos(132);
    lemma_pow2_pos(149);
    lemma_pow2_unfold(133);
    lemma_pow2_adds(16, 133);
    lemma_pow2_adds(24, 133);
    lemma_pow2_strictly_increases(132, 149);
    crate::curve::lemma_whole(180);
    crate::curve::lemma_whole(256);
    crate::curve::lemma_whole(512);
    let x = 180 * one - start@.place();
    let size: nat = if x >= 0 {
        x as nat
    } else {
        (-x) as nat
    };
    assert(256 * one == 0x100_0000 * pow2(133)) by (nonlinear_arith)
        requires
            one == 65536 * pow2(133),
    ;
    crate::number::lemma_round_near(size, 133);
    crate::number::lemma_round_monotone(size, 1, 256 * one, 1);
    let diff = Number::ratio(180, 1).minus(start@);
    assert(diff is Finite);
    assert(diff.place() >= x - pow2(132));
    let sum = start@.place() + diff.place();
    assert(sum >= 180 * one - pow2(132));
    lemma_near_limit(sum as nat);
}

/// All of the way to a limit or beyond leads to the limit.
#[verifier::spinoff_prover]
proof fn lemma_limit_arrival(start: Single, target: Single, w: Number)
    requires
        start@ is Finite,
        target@ != Number::Nan,
        w == (Number::Finite { neg: false, mag: Number::one() }),
    ensures
        target@.place() <= 0 ==> crate::pulse::servo_pulse(angle_between(start@, target@, w))
            == crate::pulse::servo_pulse(Number::ratio(0, 1)),
        target@.place() >= 180 * Number::one() && -76 * Number::one() < start@.place() < 436
            * Number::one() ==> crate::pulse::servo_pulse(angle_between(start@, target@, w))
            == crate::pulse::servo_pulse(Number::ratio(180, 1)),
{
    let one = Number::one();
    lemma_pow2_pos(149);
    lemma_pow2_pos(277);
    crate::curve::lemma_whole(0);
    crate::curve::lemma_whole(180);
    assert(0 * one == 0);
    crate::single::lemma_finite_exact(start);
    if target@ is Finite {
        crate::single::lemma_finite_exact(target);
    }
    let back = start@.negated();
    let zero = Number::ratio(0, 1);
    let full = Number::ratio(180, 1);
    let diff = target@.plus(back);
    lemma_times_one(target@, back, w);
    let end = start@.plus(diff);
    assert(end == diff.plus(start@));
    lemma_clamped(end);
    if target@.place() <= 0 {
        crate::number::lemma_plus_order(target@, zero, back);
        crate::number::lemma_plus_order(diff, zero.plus(back), start@);
        assert(zero.plus(back).place() == -start@.place());
        assert(zero.plus(back).plus(start@).place() == 0);
        assert(end.place() <= 0);
        crate::pulse::law_pulse_order(angle_between(start@, target@, w), zero);
        crate::pulse::law_pulse_order(zero, angle_between(start@, target@, w));
    }
    if target@.place() >= 180 * one && -76 * one < start@.place() < 436 * one {
        lemma_reaches_limit(start);
        crate::number::lemma_plus_order(full, target@, back);
        crate::number::lemma_plus_order(full.plus(back), diff, start@);
        assert(full.plus(back).plus(start@) == start@.plus(full.minus(start@)));
        assert(end.place() >= 180 * one);
        crate::pulse::law_pulse_order(angle_between(start@, target@, w), full);
        crate::pulse::law_pulse_order(full, angle_between(start@, target@, w));
    }
}

/// A move whose last cosine is -1 ends at the limit where its target lies at the limit or beyond:
/// at 150 for a target of 0 degrees or less, and at 600 for one of 180 degrees or more. The upper
/// limit is reached from every start within 256 degrees of it; from far away the rounded distance
/// may fall short.
pub proof fn law_axis_arrives_at_limit(
    starts: Seq<Single>,
    targets: Seq<Single>,
    cosines: Seq<Single>,
    a: int,
)
    requires
        0 <= a < 3,
        starts[a]@ is Finite,
        targets[a]@ != Number::Nan,
        cosines.len() > 0,
        crate::curve::is_cosine(cosines.last()@),
        cosines.last()@.place() == -Number::one(),
    ensures
        targets[a]@.place() <= 0 ==> ({
            let plan = axis_plan(starts, targets, cosines);
            plan[plan.len() - 4 + a] == (Step::Write {
                channel: axis_channels()[a],
                on: 0,
                off: crate::pulse::SERVO_MIN,
            })
        }),
        targets[a]@.place() >= 180 * Number::one() && -76 * Number::one() < starts[a]@.place()
            < 436 * Number::one() ==> ({
            let plan = axis_plan(starts, targets, cosines);
            plan[plan.len() - 4 + a] == (Step::Write {
                channel: axis_channels()[a],
                on: 0,
                off: crate::pulse::SERVO_MAX,
            })
        }),
{
    lemma_pow2_pos(149);
    let w = crate::curve::weight(cosines.last()@);
    crate::curve::law_weight_is_share(cosines.last()@);
    crate::curve::law_weight_ends(cosines.last()@);
    law_axis_steps(starts, targets, cosines, cosines.len() - 1, a);
    lemma_limit_arrival(starts[a], targets[a], w);
    crate::pulse::law_whole_degrees(0);
    crate::pulse::law_whole_degrees(180);
}

/// While the cosines fall, the pulses of a move in degrees do not turn back: what step `j` writes
/// to a joint is no nearer to its start than what step `i` before it wrote, as long as the angles
/// are numbers.
pub proof fn law_axis_onward(
    starts: Seq<Single>,
    targets: Seq<Single>,
    cosines: Seq<Single>,
    i: int,
    j: int,
    a: int,
)
    requires
        crate::cosines::are_cosines(cosines),
        0 <= i <= j < cosines.len(),
        0 <= a < 3,
        cosines[j]@.place() <= cosines[i]@.place(),
        angle_between(starts[a]@, targets[a]@, crate::curve::weight(cosines[i]@)) != Number::Nan,
        angle_between(starts[a]@, targets[a]@, crate::curve::weight(cosines[j]@)) != Number::Nan,
    ensures
        ({
            let plan = axis_plan(starts, targets, cosines);
            let earlier = plan[4 * i + a]->Write_off;
            let later = plan[4 * j + a]->Write_off;
            &&& plan[4 * i + a] is Write
            &&& plan[4 * j + a] is Write
            &&& starts[a]@.place() <= targets[a]@.place() ==> earlier <= later
            &&& targets[a]@.place() <= starts[a]@.place() ==> later <= earlier
        }),
{
    crate::curve::law_weight_is_share(cosines[i]@);
    crate::curve::law_weight_is_share(cosines[j]@);
    crate::curve::law_weight_onward(cosines[i]@, cosines[j]@);
    law_axis_steps(starts, targets, cosines, i, a);
    law_axis_steps(starts, targets, cosines, j, a);
    lemma_way_order(
        starts[a],
        targets[a],
        crate::curve::weight(cosines[i]@),
        crate::curve::weight(cosines[j]@),
    );
}

/// A quotient of whole numbers below 4 is rounded by less than an eight-millionth.
proof fn lemma_ratio_near(num: nat, den: nat)
    requires
        0 < num < 4 * den,
        den <= 10,
    ensures
        ({
            let one = Number::one();
            let r = Number::ratio(num, den);
            &&& r is Finite
            &&& r.place() > 0
            &&& 8388608 * (den * r.place() - num * one) <= den * one
            &&& 8388608 * (num * one - den * r.place()) <= den * one
        }),
{
    let one = Number::one();
    lemma2_to64();
    lemma_pow2_pos(149);
    let t = pow2(126);
    crate::number::lemma_part(23);
    lemma_pow2_unfold(127);
    assert(num * one < 0x100_0000 * (den * pow2(127))) by (nonlinear_arith)
        requires
            num < 4 * den,
            one == 8388608 * t,
            pow2(127) == 2 * t,
            t > 0,
    ;
    crate::number::lemma_round_err(num * one, den, 127);
    lemma_ratio_positive(num, den);
    let mag = Number::round_mag(num * one, den);
    assert(mag * den == den * mag) by (nonlinear_arith);
    assert(8388608 * (den * mag - num * one) <= den * one && 8388608 * (num * one - den * mag)
        <= den * one) by (nonlinear_arith)
        requires
            2 * (den * mag - num * one) <= den * (2 * t),
            2 * (num * one - den * mag) <= den * (2 * t),
            one == 8388608 * t,
    ;
}

/// The direction of a joint is 1, or -1 for the joints 1 and 4. The weights are 2.5, 1.8 and 1.5
/// for the joints 1, 3 and 4 and 1.2 for the others, within a rounding error.
pub proof fn law_motor_traits(id: usize)
    ensures
        motor_direction(id) is Finite,
        motor_direction(id).place() == if id == 1 || id == 4 {
            -Number::one()
        } else {
            Number::one() as int
        },
        ({
            let one = Number::one();
            let (num, den): (int, int) = if id == 1 {
                (5, 2)
            } else if id == 3 {
                (9, 5)
            } else if id == 4 {
                (3, 2)
            } else {
                (6, 5)
            };
            let w = motor_weight(id);
            &&& w is Finite
            &&& w.place() > 0
            &&& 8388608 * (den * w.place() - num * one) <= den * one
            &&& 8388608 * (num * one - den * w.place()) <= den * one
        }),
{
    crate::curve::lemma_whole(1);
    assert(1 * Number::one() == Number::one());
    lemma_ratio_near(5, 2);
    lemma_ratio_near(9, 5);
    lemma_ratio_near(3, 2);
    lemma_ratio_near(6, 5);
}

/// `x` is positive and `num / den` within a rounding error.
spec fn is_nearly(x: Number, num: nat, den: nat) -> bool {
    let one = Number::one();
    &&& x is Finite
    &&& x.place() > 0
    &&& 8388608 * (den * x.place() - num * one) <= den * one
    &&& 8388608 * (num * one - den * x.place()) <= den * one
}

/// The weights of the joints as fractions: 5/2, 9/5, 3/2 and 6/5.
spec fn weight_num(id: usize) -> nat {
    if id == 1 {
        5
    } else if id == 3 {
        9
    } else if id == 4 {
        3
    } else {
        6
    }
}

spec fn weight_den(id: usize) -> nat {
    if id == 1 || id == 4 {
        2
    } else {
        5
    }
}

/// Where a joint at `angle` comes to when it is moved by `x` times `power`.
spec fn moved(angle: Number, x: Number, power: Number) -> Number {
    angle.plus(x.times(power)).clamped(Number::ratio(0, 1), Number::ratio(180, 1))
}

/// `r` is the exact angle `exact / den`, within a 1024th of a degree, or the nearer limit of 0 to
/// 180 degrees.
spec fn jogs_to(r: int, exact: int, den: nat) -> bool {
    let one = Number::one();
    &&& 0 <= r <= 180 * one
    &&& r > 0 ==> 1024 * (den * r) <= 1024 * exact + den * one
    &&& r < 180 * one ==> 1024 * exact <= 1024 * (den * r) + den * one
}

proof fn lemma_moved_near(angle: Number, x: Number, power: Number, num: nat, den: nat)
    requires
        crate::pulse::is_servo_angle(angle),
        x is Finite,
        -1024 * Number::one() <= x.place() <= 1024 * Number::one(),
        is_nearly(power, num, den),
        0 < num < 4 * den,
        den <= 10,
    ensures
        moved(angle, x, power) is Finite,
        jogs_to(moved(angle, x, power).place(), den * angle.place() + num * x.place(), den),
{
    let one = Number::one();
    lemma2_to64();
    lemma_pow2_pos(149);
    let t = pow2(137);
    crate::number::lemma_part(12);
    lemma_pow2_unfold(138);
    let y = x.place();
    let p = power.place();
    let a = angle.place();
    assert(p <= 4 * one + one) by (nonlinear_arith)
        requires
            8388608 * (den * p - num * one) <= den * one,
            num < 4 * den,
            den > 0,
            one > 0,
    ;
    assert(-0x100_0000 * (one * (2 * t)) < y * p < 0x100_0000 * (one * (2 * t)) && -5120 * (one
        * one) <= y * p <= 5120 * (one * one)) by (nonlinear_arith)
        requires
            -1024 * one <= y <= 1024 * one,
            0 < p <= 5 * one,
            one == 4096 * t,
            t > 0,
    ;
    crate::number::lemma_times_near(x, power, 138);
    assert(one * (2 * t) == 2 * (one * t)) by (nonlinear_arith);
    let delta = x.times(power);
    let d = delta.place();
    assert(-5121 * one <= d <= 5121 * one) by (nonlinear_arith)
        requires
            2 * (d * one - y * p) <= one * (2 * t),
            2 * (y * p - d * one) <= one * (2 * t),
            -5120 * (one * one) <= y * p <= 5120 * (one * one),
            one == 4096 * t,
            t > 0,
    ;
    assert(0x100_0000 * pow2(138) == 8192 * one);
    crate::number::lemma_plus_near(angle, delta, 138);
    let s = angle.plus(delta).place();
    let off = den * d - num * y;
    assert(one * off == den * (d * one - y * p) + y * (den * p - num * one)) by (nonlinear_arith)
        requires
            off == den * d - num * y,
    ;
    let e = d * one - y * p;
    let f = den * p - num * one;
    assert(den * e <= den * (one * t) && -(den * e) <= den * (one * t)) by (nonlinear_arith)
        requires
            e <= one * t,
            -e <= one * t,
    ;
    assert(2 * (y * f) <= den * (one * t) && -2 * (y * f) <= den * (one * t)) by (nonlinear_arith)
        requires
            8388608 * f <= den * one,
            -8388608 * f <= den * one,
            -1024 * one <= y <= 1024 * one,
            one == 4096 * t,
            t > 0,
    ;
    assert(2 * off <= 3 * (den * t) && -2 * off <= 3 * (den * t)) by (nonlinear_arith)
        requires
            2 * (one * off) <= 3 * (den * (one * t)),
            -2 * (one * off) <= 3 * (den * (one * t)),
            one > 0,
    ;
    let g = s - (a + d);
    assert(den * g <= den * t && -(den * g) <= den * t) by (nonlinear_arith)
        requires
            g <= t,
            -g <= t,
    ;
    assert(den * s == den * a + den * d + den * g) by (nonlinear_arith)
        requires
            g == s - (a + d),
    ;
    assert(den * one == 4096 * (den * t)) by (nonlinear_arith)
        requires
            one == 4096 * t,
    ;
    crate::curve::lemma_whole(0);
    crate::curve::lemma_whole(180);
    assert(0 * one == 0 && den * 0 == 0);
    let exact = den * a + num * y;
    assert(1024 * (den * s) <= 1024 * exact + den * one);
    assert(1024 * exact <= 1024 * (den * s) + den * one);
    assert(s < 0 ==> den * s <= 0) by (nonlinear_arith);
    assert(s > 180 * one ==> den * s >= den * (180 * one)) by (nonlinear_arith);
}

/// Moving further never ends nearer.
proof fn lemma_moved_order(angle: Number, x1: Number, x2: Number, power: Number)
    requires
        crate::pulse::is_servo_angle(angle),
        crate::number::is_held(x1),
        crate::number::is_held(x2),
        x1.place() <= x2.place(),
        power is Finite,
        0 < power.place() < pow2(277),
    ensures
        moved(angle, x1, power).place() <= moved(angle, x2, power).place(),
        0 <= moved(angle, x1, power).place(),
        moved(angle, x2, power).place() <= 180 * Number::one(),
{
    let one = Number::one();
    lemma_pow2_pos(149);
    lemma_pow2_pos(277);
    crate::curve::lemma_whole(0);
    crate::curve::lemma_whole(180);
    assert(0 * one == 0);
    crate::number::lemma_times_order(x1, x2, power);
    let d1 = x1.times(power);
    let d2 = x2.times(power);
    assert(angle.plus(d1) == d1.plus(angle) && angle.plus(d2) == d2.plus(angle));
    crate::number::lemma_plus_order(d1, d2, angle);
    lemma_clamped(angle.plus(d1));
    lemma_clamped(angle.plus(d2));
    crate::number::lemma_clamped_order(
        angle.plus(d1),
        angle.plus(d2),
        Number::ratio(0, 1),
        Number::ratio(180, 1),
    );
}

proof fn lemma_moved(angle: Number, x: Number, power: Number, num: nat, den: nat)
    requires
        crate::pulse::is_servo_angle(angle),
        crate::number::is_held(x),
        is_nearly(power, num, den),
        den < 2 * num,
        num < 4 * den,
        den <= 10,
    ensures
        jogs_to(moved(angle, x, power).place(), den * angle.place() + num * x.place(), den),
{
    let one = Number::one();
    lemma_pow2_pos(149);
    crate::curve::lemma_whole(8);
    crate::curve::lemma_whole(1024);
    let far: nat = 1024 * one;
    let y = x.place();
    let p = power.place();
    assert(p < 8 * one) by (nonlinear_arith)
        requires
            8388608 * (den * p - num * one) <= den * one,
            num < 4 * den,
            den > 0,
            one > 0,
    ;
    let r = moved(angle, x, power).place();
    let a = angle.place();
    assert(den * a >= 0 && den * a <= den * (180 * one) && 2 * (num * far) >= den * far && den * far
        == 1024 * (den * one) && den * (180 * one) == 180 * (den * one) && den * one > 0) by (
        nonlinear_arith)
        requires
            0 <= a <= 180 * one,
            den < 2 * num,
            far == 1024 * one,
            den > 0,
            one > 0,
    ;
    assert(0 <= r <= 180 * one ==> 0 <= den * r <= den * (180 * one)) by (nonlinear_arith);
    if y > far {
        let limit = Number::Finite { neg: false, mag: far };
        lemma_moved_near(angle, limit, power, num, den);
        lemma_moved_order(angle, limit, x, power);
        assert(num * y >= num * far) by (nonlinear_arith)
            requires
                y > far,
        ;
        let r0 = moved(angle, limit, power).place();
        assert(0 <= r0 <= 180 * one ==> 0 <= den * r0 <= den * (180 * one)) by (nonlinear_arith);
        assert(r0 == 180 * one);
    } else if y < -far {
        let limit = Number::Finite { neg: true, mag: far };
        lemma_moved_near(angle, limit, power, num, den);
        lemma_moved_order(angle, x, limit, power);
        assert(num * y <= -(num * far) && num * (-far) == -(num * far)) by (nonlinear_arith)
            requires
                y < -far,
        ;
        let r0 = moved(angle, limit, power).place();
        assert(0 <= r0 <= 180 * one ==> 0 <= den * r0 <= den * (180 * one)) by (nonlinear_arith);
        assert(r0 == 0);
    } else {
        assert(x is Finite) by {
            lemma_pow2_strictly_increases(149, 277);
            lemma_pow2_adds(149, 128);
            lemma_pow2_strictly_increases(64, 128);
            lemma2_to64();
        }
        lemma_moved_near(angle, x, power, num, den);
    }
}

/// From every servo angle, a jogged joint comes to `angle + delta * direction * power`, within a
/// 1024th of a degree, or to the nearer limit where that lies beyond 0 to 180 degrees. The power
/// of a positive delta is 2.5, 1.8, 1.5 or 1.2 by joint, that of any other one 0.7, and the
/// direction of the joints 1 and 4 is the other way. A stick that is a 128th or more off rest
/// moves the joint unless it is at its limit.
#[verifier::spinoff_prover]
pub proof fn law_jog_amount(angle: Single, id: usize, joy_delta: Single)
    requires
        crate::pulse::is_servo_angle(angle@),
        joy_delta@ != Number::Nan,
    ensures
        ({
            let one = Number::one();
            let lifts = joy_delta@.place() > 0;
            let (num, den): (int, int) = if !lifts {
                (7, 10)
            } else if id == 1 {
                (5, 2)
            } else if id == 3 {
                (9, 5)
            } else if id == 4 {
                (3, 2)
            } else {
                (6, 5)
            };
            let turned = if id == 1 || id == 4 {
                -joy_delta@.place()
            } else {
                joy_delta@.place()
            };
            let a = angle@.place();
            let r = jogged(angle@, id, joy_delta@).place();
            let exact = den * a + num * turned;
            &&& 0 <= r <= 180 * one
            &&& r > 0 ==> 1024 * (den * r) <= 1024 * exact + den * one
            &&& r < 180 * one ==> 1024 * exact <= 1024 * (den * r) + den * one
            &&& 128 * turned >= one ==> r > a || r == 180 * one
            &&& -128 * turned >= one ==> r < a || r == 0
        }),
{
    let one = Number::one();
    lemma2_to64();
    lemma_pow2_pos(149);
    lemma_pow2_pos(277);
    crate::curve::lemma_whole(0);
    crate::curve::lemma_whole(1);
    assert(0 * one == 0 && 1 * one == one);
    law_motor_traits(id);
    lemma_ratio_near(7, 10);
    let lifts = joy_delta@.place() > 0;
    let num: nat = if lifts {
        weight_num(id)
    } else {
        7
    };
    let den: nat = if lifts {
        weight_den(id)
    } else {
        10
    };
    let power = motor_power(id, joy_delta@);
    assert(is_nearly(power, num, den));
    let x = joy_delta@.times(motor_direction(id));
    let turned = if id == 1 || id == 4 {
        -joy_delta@.place()
    } else {
        joy_delta@.place()
    };
    if joy_delta@ is Finite {
        let mag = joy_delta@->mag;
        crate::single::lemma_finite_exact(joy_delta);
        assert(mag * one == one * mag && one * 1 == one) by (nonlinear_arith);
        crate::number::lemma_round_scale(mag, 1, one);
    }
    assert(x.place() == turned && crate::number::is_held(x));
    lemma_moved(angle@, x, power, num, den);
    let a = angle@.place();
    let r = jogged(angle@, id, joy_delta@).place();
    assert(r == moved(angle@, x, power).place());
    assert(den * (r - a) == den * r - den * a && num * turned == turned * num) by (nonlinear_arith);
    if r <= a && 128 * turned >= one {
        assert(den * r <= den * a && 16 * (num * turned) > den * one / 1024 && 1024 * (num * turned)
            > den * one) by (nonlinear_arith)
            requires
                r <= a,
                128 * turned >= one,
                den < 2 * num,
                den > 0,
                one > 0,
        ;
    }
    if r >= a && -128 * turned >= one {
        assert(den * r >= den * a && 1024 * (num * turned) < -(den * one)) by (nonlinear_arith)
            requires
                r >= a,
                -128 * turned >= one,
                den < 2 * num,
                den > 0,
                one > 0,
        ;
    }
}

/// The angle on the way is `start + (target - start) * w`, within a 4096th of a degree, or the
/// nearer limit where that lies beyond 0 to 180 degrees.
pub proof fn law_way_near(start: Number, target: Number, w: Number)
    requires
        start is Finite,
        target is Finite,
        -512 * Number::one() <= start.place() <= 512 * Number::one(),
        -512 * Number::one() <= target.place() <= 512 * Number::one(),
        crate::curve::is_share(w),
    ensures
        crate::pulse::is_servo_angle(angle_between(start, target, w)),
        ({
            let one = Number::one();
            let exact = start.place() * one + (target.place() - start.place()) * w.place();
            let r = angle_between(start, target, w).place();
            &&& r > 0 ==> 4096 * (r * one) <= 4096 * exact + one * one
            &&& r < 180 * one ==> 4096 * exact <= 4096 * (r * one) + one * one
        }),
{
    let one = Number::one();
    lemma2_to64();
    lemma_pow2_pos(149);
    let t = pow2(135);
    crate::number::lemma_part(14);
    lemma_pow2_unfold(136);
    let s = start.place();
    let g = target.place();
    let m = w.place();
    assert(0x100_0000 * pow2(136) == 2048 * one);
    crate::number::lemma_plus_near(target, start.negated(), 136);
    let diff = target.minus(start);
    let d = diff.place();
    assert(-0x100_0000 * (one * (2 * t)) < d * m < 0x100_0000 * (one * (2 * t)) && -1025 * (one
        * one) <= d * m <= 1025 * (one * one)) by (nonlinear_arith)
        requires
            -1025 * one <= d <= 1025 * one,
            0 <= m <= one,
            one == 16384 * t,
            t > 0,
    ;
    crate::number::lemma_times_near(diff, w, 136);
    assert(one * (2 * t) == 2 * (one * t)) by (nonlinear_arith);
    let way = diff.times(w);
    let v = way.place();
    assert(-1026 * one <= v <= 1026 * one) by (nonlinear_arith)
        requires
            2 * (v * one - d * m) <= one * (2 * t),
            2 * (d * m - v * one) <= one * (2 * t),
            -1025 * (one * one) <= d * m <= 1025 * (one * one),
            one == 16384 * t,
            t > 0,
    ;
    crate::number::lemma_plus_near(start, way, 136);
    let at = start.plus(way);
    let z = at.place();
    let exact = s * one + (g - s) * m;
    let e1 = d - (g - s);
    let e2 = v * one - d * m;
    let e3 = z - (s + v);
    assert(z * one - exact == e3 * one + e2 + e1 * m) by (nonlinear_arith)
        requires
            exact == s * one + (g - s) * m,
            e1 == d - (g - s),
            e2 == v * one - d * m,
            e3 == z - (s + v),
    ;
    assert(e3 * one <= t * one && -(e3 * one) <= t * one && e1 * m <= t * one && -(e1 * m) <= t
        * one && one * t == t * one && 4 * (4096 * (t * one)) == one * one) by (nonlinear_arith)
        requires
            e3 <= t,
            -e3 <= t,
            e1 <= t,
            -e1 <= t,
            0 <= m <= one,
            one == 16384 * t,
            t > 0,
    ;
    lemma_clamped(at);
    crate::curve::lemma_whole(0);
    crate::curve::lemma_whole(180);
    assert(0 * one == 0);
    assert(z < 0 ==> z * one <= 0) by (nonlinear_arith)
        requires
            one > 0,
    ;
    assert(z > 180 * one ==> z * one >= (180 * one) * one) by (nonlinear_arith)
        requires
            one > 0,
    ;
}

/// What is written for a cosine is the pulse of the angle `start + (target - start) * (1 -
/// cosine) / 2`, at 150 and two and a half for each degree, within one count and a 512th that
/// rounding may take, or the nearer limit of 150 to 600. Angles and cosine are in units.
spec fn axis_eases(off: u16, start: int, target: int, cosine: int) -> bool {
    let one = Number::one();
    let twice = 2 * (start * one) + (target - start) * (one - cosine);
    let exact = 600 * (one * one) + 5 * twice;
    &&& 150 <= off <= 600
    &&& off > 150 ==> 512 * (off * (one * one)) <= 128 * exact + one * one
    &&& off < 600 ==> 128 * exact < 512 * ((off + 1) * (one * one)) + one * one
}

/// A joint is on the course of the cosine at every step, as its angle is.
#[verifier::spinoff_prover]
proof fn lemma_axis_eased(start: Number, target: Number, c: Number)
    requires
        start is Finite,
        target is Finite,
        -512 * Number::one() <= start.place() <= 512 * Number::one(),
        -512 * Number::one() <= target.place() <= 512 * Number::one(),
        crate::curve::is_cosine(c),
    ensures
        axis_eases(
            crate::pulse::servo_pulse(angle_between(start, target, crate::curve::weight(c))),
            start.place(),
            target.place(),
            c.place(),
        ),
{
    let one = Number::one();
    lemma_pow2_pos(149);
    let w = crate::curve::weight(c);
    crate::curve::law_weight_is_share(c);
    crate::curve::law_weight_near(c);
    law_way_near(start, target, w);
    let angle = angle_between(start, target, w);
    crate::pulse::law_servo_pulse(angle, angle);
    crate::pulse::law_pulse_near(angle);
    lemma_axis_bounds(
        crate::pulse::servo_pulse(angle),
        start.place(),
        target.place(),
        c.place(),
        w.place(),
        angle.place(),
    );
}

/// The bounds of pulse and angle, put together.
proof fn lemma_axis_bounds(p: u16, s: int, g: int, c: int, m: int, r: int)
    requires
        Number::one() > 0,
        -512 * Number::one() <= s <= 512 * Number::one(),
        -512 * Number::one() <= g <= 512 * Number::one(),
        4194304 * (2 * m - (Number::one() - c)) <= Number::one(),
        4194304 * ((Number::one() - c) - 2 * m) <= Number::one(),
        0 <= r <= 180 * Number::one(),
        150 <= p <= 600,
        r == 0 ==> p == 150,
        r == 180 * Number::one() ==> p == 600,
        r > 0 ==> 4096 * (r * Number::one()) <= 4096 * (s * Number::one() + (g - s) * m)
            + Number::one() * Number::one(),
        r < 180 * Number::one() ==> 4096 * (s * Number::one() + (g - s) * m) <= 4096 * (r
            * Number::one()) + Number::one() * Number::one(),
        4096 * (2 * (p * Number::one())) <= 4096 * (300 * Number::one() + 5 * r) + Number::one(),
        4096 * (300 * Number::one() + 5 * r) < 4096 * (2 * ((p + 1) * Number::one()))
            + Number::one(),
    ensures
        axis_eases(p, s, g, c),
{
    let one = Number::one() as int;
    let square = one * one;
    let k = g - s;
    let e = 2 * m - (one - c);
    let twice = 2 * (s * one) + k * (one - c);
    assert(2 * (s * one + k * m) == twice + k * e) by (nonlinear_arith)
        requires
            e == 2 * m - (one - c),
            twice == 2 * (s * one) + k * (one - c),
    ;
    assert(4096 * (k * e) <= square && -4096 * (k * e) <= square) by (nonlinear_arith)
        requires
            4194304 * e <= one,
            -4194304 * e <= one,
            -1024 * one <= k <= 1024 * one,
            square == one * one,
            one > 0,
    ;
    let x = r * one;
    assert(4096 * (2 * (p * square)) <= 4096 * (300 * square + 5 * x) + square) by (nonlinear_arith)
        requires
            4096 * (2 * (p * one)) <= 4096 * (300 * one + 5 * r) + one,
            square == one * one,
            x == r * one,
            one > 0,
    ;
    assert(4096 * (300 * square + 5 * x) < 4096 * (2 * ((p + 1) * square)) + square) by (
        nonlinear_arith)
        requires
            4096 * (300 * one + 5 * r) < 4096 * (2 * ((p + 1) * one)) + one,
            square == one * one,
            x == r * one,
            one > 0,
    ;
    assert(square > 0) by (nonlinear_arith)
        requires
            square == one * one,
            one > 0,
    ;
}

/// At every step of a move in degrees C0, C1 and C2 are written in order, and then comes a pause of
/// 20 ms. What is written is the pulse of the angle `start + (target - start) * (1 - cosine) / 2`,
/// at 150 and two and a half for each degree, within one count and a 512th that rounding may take,
/// or the nearer limit of 150 to 600.
pub proof fn law_axis_course(
    starts: Seq<Single>,
    targets: Seq<Single>,
    cosines: Seq<Single>,
    i: int,
    a: int,
)
    requires
        crate::cosines::are_cosines(cosines),
        0 <= i < cosines.len(),
        0 <= a < 3,
        starts[a]@ is Finite,
        targets[a]@ is Finite,
        -512 * Number::one() <= starts[a]@.place() <= 512 * Number::one(),
        -512 * Number::one() <= targets[a]@.place() <= 512 * Number::one(),
    ensures
        ({
            let plan = axis_plan(starts, targets, cosines);
            let channels = seq![Channel::C0, Channel::C1, Channel::C2];
            let one = Number::one();
            let square = one * one;
            let start = starts[a]@.place();
            let target = targets[a]@.place();
            let twice = 2 * (start * one) + (target - start) * (one - cosines[i]@.place());
            let exact = 600 * square + 5 * twice;
            &&& plan.len() == 4 * cosines.len()
            &&& plan[4 * i + a] matches Step::Write { channel, on, off } && channel == channels[a]
                && on == 0 && 150 <= off <= 600 && (off > 150 ==> 512 * (off * square) <= 128
                * exact + square) && (off < 600 ==> 128 * exact < 512 * ((off + 1) * square)
                + square)
            &&& plan[4 * i + 3] == (Step::Pause { ms: 20 })
        }),
{
    law_axis_steps(starts, targets, cosines, i, a);
    lemma_axis_eased(starts[a]@, targets[a]@, cosines[i]@);
}

/// A joint whose start or target is no number is written 0.
pub proof fn law_axis_no_number(
    starts: Seq<Single>,
    targets: Seq<Single>,
    cosines: Seq<Single>,
    i: int,
    a: int,
)
    requires
        0 <= i < cosines.len(),
        0 <= a < 3,
        starts[a]@ == Number::Nan || targets[a]@ == Number::Nan,
    ensures
        ({
            let channels = seq![Channel::C0, Channel::C1, Channel::C2];
            axis_plan(starts, targets, cosines)[4 * i + a] == (Step::Write {
                channel: channels[a],
                on: 0,
                off: 0,
            })
        }),
{
    law_axis_steps(starts, targets, cosines, i, a);
    crate::pulse::law_pulse_of_nan();
    crate::number::law_infinite_sums(targets[a]@, starts[a]@.negated());
}

/// Where the cosine is 1, a joint is written the pulse of the angle that it starts from.
#[verifier::spinoff_prover]
pub proof fn law_axis_starts(
    starts: Seq<Single>,
    targets: Seq<Single>,
    cosines: Seq<Single>,
    i: int,
    a: int,
)
    requires
        0 <= i < cosines.len(),
        0 <= a < 3,
        crate::curve::is_cosine(cosines[i]@),
        cosines[i]@.place() == Number::one(),
        crate::pulse::is_servo_angle(starts[a]@),
        targets[a]@.minus(starts[a]@) is Finite,
    ensures
        ({
            let plan = axis_plan(starts, targets, cosines);
            let channels = seq![Channel::C0, Channel::C1, Channel::C2];
            plan[4 * i + a] == (Step::Write {
                channel: channels[a],
                on: 0,
                off: crate::pulse::servo_pulse(starts[a]@),
            })
        }),
{
    let one = Number::one();
    lemma_pow2_pos(149);
    lemma_pow2_pos(277);
    crate::curve::lemma_whole(0);
    crate::curve::lemma_whole(180);
    assert(0 * one == 0);
    let w = crate::curve::weight(cosines[i]@);
    crate::curve::law_weight_is_share(cosines[i]@);
    crate::curve::law_weight_ends(cosines[i]@);
    law_axis_steps(starts, targets, cosines, i, a);
    let start = starts[a]@;
    crate::single::lemma_finite_exact(starts[a]);
    let diff = targets[a]@.minus(start);
    assert(diff->mag * 0 == one * 0 && one * 1 == one) by (nonlinear_arith);
    crate::number::lemma_round_scale(0, 1, one);
    let way = diff.times(w);
    assert(way is Finite && way.place() == 0);
    let at = start.plus(way);
    assert(at.place() == start.place());
    lemma_clamped(at);
    let angle = angle_between(start, targets[a]@, w);
    assert(angle.place() == start.place());
    crate::pulse::law_pulse_order(angle, start);
    crate::pulse::law_pulse_order(start, angle);
}

} // verus!
