//! Moves of one or more joints along the eased course.
//!
//! Each move takes the cosines of its `glide_phases`, one for each step, and gives the plan that
//! carries it out. The joints of a move start and arrive together.

use vstd::prelude::*;

use crate::cosines::Cosines;
use crate::curve::{ease, phases, position};
use crate::single::Single;
use crate::step::{Channel, Message, Step};

verus! {

/// Steps of `move_arm_smooth`.
pub const SMOOTH_STEPS: u32 = 40;

/// Steps of `move_arms_simultaneous`.
pub const PAIR_STEPS: u32 = 50;

/// Steps of `move_arm_safe_power` and `move_smoothly`.
pub const POWER_STEPS: u32 = 100;

/// Steps of `move_4axis_organic`.
pub const FOUR_STEPS: u32 = 120;

/// Steps of `move_shoulder_safe`.
pub const SHOULDER_STEPS: u32 = 120;

/// Steps of `move_5axis_organic`.
pub const FIVE_STEPS: u32 = 150;

/// The lowest and the highest position that `move_shoulder_safe` goes to.
pub const SHOULDER_MIN: u16 = 200;

pub const SHOULDER_MAX: u16 = 420;

/// What is written to joint `a` when the cosine of the phase is `cosine`.
pub open spec fn frame_write(
    channels: Seq<Channel>,
    starts: Seq<u16>,
    targets: Seq<u16>,
    cosine: Single,
    a: int,
) -> Step {
    Step::Write {
        channel: channels[a],
        on: 0,
        off: crate::curve::between(starts[a], targets[a], crate::curve::weight(cosine@)),
    }
}

/// One step of a move: every joint is written, then comes a pause.
pub open spec fn frame(
    channels: Seq<Channel>,
    starts: Seq<u16>,
    targets: Seq<u16>,
    cosine: Single,
    ms: u32,
) -> Seq<Step> {
    Seq::new(
        channels.len(),
        |a: int| frame_write(channels, starts, targets, cosine, a),
    ).push(Step::Pause { ms })
}

/// A whole move: one step for each cosine.
pub open spec fn glide(
    channels: Seq<Channel>,
    starts: Seq<u16>,
    targets: Seq<u16>,
    cosines: Seq<Single>,
    ms: u32,
) -> Seq<Step>
    decreases cosines.len(),
{
    if cosines.len() == 0 {
        Seq::empty()
    } else {
        glide(channels, starts, targets, cosines.drop_last(), ms) + frame(
            channels,
            starts,
            targets,
            cosines.last(),
            ms,
        )
    }
}

/// The phases of an eased move of `steps` steps. It has none at the start: its first step is one
/// step on the way.
pub fn glide_phases(steps: u32) -> (r: Vec<Single>)
    requires
        0 < steps < 0x100_0000,
    ensures
        r@.len() == steps,
        forall|i: int|
            0 <= i < r@.len() ==> (#[trigger] r@[i])@ == crate::curve::phase(
                (i + 1) as nat,
                steps as nat,
            ),
{
    phases(1, steps)
}

fn glide_steps(
    channels: &[Channel],
    starts: &[u16],
    targets: &[u16],
    cosines: &Cosines,
    ms: u32,
) -> (r: Vec<Step>)
    requires
        starts@.len() == channels@.len(),
        targets@.len() == channels@.len(),
    ensures
        r@ == glide(channels@, starts@, targets@, cosines@, ms),
        channels@.no_duplicates() ==> on_the_way(r@, channels@, starts@, targets@),
        only_channels(r@, channels@),
{
    let mut r: Vec<Step> = Vec::new();
    let mut i: usize = 0;
    while i < cosines.len()
        invariant
            i <= cosines@.len(),
            starts@.len() == channels@.len(),
            targets@.len() == channels@.len(),
            r@ == glide(channels@, starts@, targets@, cosines@.take(i as int), ms),
        decreases cosines@.len() - i,
    {
        let w: Single = ease(cosines.at(i));
        let ghost before = r@;
        let mut a: usize = 0;
        while a < channels.len()
            invariant
                i < cosines@.len(),
                a <= channels@.len(),
                starts@.len() == channels@.len(),
                targets@.len() == channels@.len(),
                w@ == crate::curve::weight(cosines@[i as int]@),
                r@ == before + Seq::new(
                    a as nat,
                    |b: int| frame_write(channels@, starts@, targets@, cosines@[i as int], b),
                ),
            decreases channels@.len() - a,
        {
            r.push(
                Step::Write {
                    channel: channels[a],
                    on: 0,
                    off: position(starts[a], targets[a], w),
                },
            );
            a = a + 1;
        }
        r.push(Step::Pause { ms });
        assert(cosines@.take(i + 1).drop_last() =~= cosines@.take(i as int));
        assert(r@ =~= before + frame(channels@, starts@, targets@, cosines@[i as int], ms));
        i = i + 1;
    }
    assert(cosines@.take(i as int) =~= cosines@);
    proof {
        use_type_invariant(cosines);
        if channels@.no_duplicates() {
            law_glide_between(channels@, starts@, targets@, cosines@, ms);
        }
        lemma_glide_channels(channels@, starts@, targets@, cosines@, ms);
    }
    r
}

/// Whether `at` lies on the way between `from` and `to`.
pub open spec fn lies_between(at: u16, from: u16, to: u16) -> bool {
    from <= at <= to || to <= at <= from
}

/// Every write of `plan` lies on the way between `from` and `to`.
pub open spec fn writes_between(plan: Seq<Step>, from: u16, to: u16) -> bool {
    forall|i: int|
        0 <= i < plan.len() ==> match #[trigger] plan[i] {
            Step::Write { off, .. } => lies_between(off, from, to),
            Step::TryWrite { off, .. } => lies_between(off, from, to),
            _ => true,
        }
}

/// Whatever `plan` writes to joint `a` lies on the way between its start and its target.
pub open spec fn on_the_way(
    plan: Seq<Step>,
    channels: Seq<Channel>,
    starts: Seq<u16>,
    targets: Seq<u16>,
) -> bool {
    forall|i: int, a: int|
        #![trigger plan[i], channels[a]]
        #![trigger plan[i], starts[a]]
        #![trigger plan[i], targets[a]]
        0 <= i < plan.len() && 0 <= a < channels.len() ==> match written(plan[i], channels[a]) {
            Some(off) => lies_between(off, starts[a], targets[a]),
            None => true,
        }
}

/// Moves one joint in 40 steps. A joint that is there already gets no writes.
pub fn move_arm_smooth(
    channel: Channel,
    current_pos: &mut u16,
    target_pos: u16,
    cosines: &Cosines,
) -> (r: Vec<Step>)
    requires
        cosines@.len() == SMOOTH_STEPS,
    ensures
        *final(current_pos) == target_pos,
        target_pos == *old(current_pos) ==> r@ == Seq::<Step>::empty(),
        target_pos != *old(current_pos) ==> r@ == glide(
            seq![channel],
            seq![*old(current_pos)],
            seq![target_pos],
            cosines@,
            15,
        ),
        writes_between(r@, *old(current_pos), target_pos),
{
    if *current_pos == target_pos {
        return Vec::new();
    }
    let channels: [Channel; 1] = [channel];
    let starts: [u16; 1] = [*current_pos];
    let targets: [u16; 1] = [target_pos];
    assert(channels@ =~= seq![channel]);
    assert(starts@ =~= seq![*old(current_pos)]);
    assert(targets@ =~= seq![target_pos]);
    let r: Vec<Step> = glide_steps(
        channels.as_slice(),
        starts.as_slice(),
        targets.as_slice(),
        cosines,
        15,
    );
    proof {
        lemma_only_joint(r@, channel, *old(current_pos), target_pos);
    }
    *current_pos = target_pos;
    r
}

/// Moves shoulder and elbow together in 50 steps.
pub fn move_arms_simultaneous(
    target_1: u16,
    target_2: u16,
    current_1: &mut u16,
    current_2: &mut u16,
    cosines: &Cosines,
) -> (r: Vec<Step>)
    requires
        cosines@.len() == PAIR_STEPS,
    ensures
        *final(current_1) == target_1,
        *final(current_2) == target_2,
        r@ == seq![
            Step::Say(
                Message::PairStart {
                    from_1: *old(current_1),
                    to_1: target_1,
                    from_2: *old(current_2),
                    to_2: target_2,
                },
            ),
        ] + glide(
            seq![Channel::C1, Channel::C2],
            seq![*old(current_1), *old(current_2)],
            seq![target_1, target_2],
            cosines@,
            20,
        ) + seq![Step::Say(Message::PairDone)],
        on_the_way(
            r@,
            seq![Channel::C1, Channel::C2],
            seq![*old(current_1), *old(current_2)],
            seq![target_1, target_2],
        ),
{
    let mut r: Vec<Step> = Vec::new();
    r.push(
        Step::Say(
            Message::PairStart {
                from_1: *current_1,
                to_1: target_1,
                from_2: *current_2,
                to_2: target_2,
            },
        ),
    );
    let channels: [Channel; 2] = [Channel::C1, Channel::C2];
    let starts: [u16; 2] = [*current_1, *current_2];
    let targets: [u16; 2] = [target_1, target_2];
    assert(channels@ =~= seq![Channel::C1, Channel::C2]);
    assert(starts@ =~= seq![*old(current_1), *old(current_2)]);
    assert(targets@ =~= seq![target_1, target_2]);
    let mut moves: Vec<Step> = glide_steps(
        channels.as_slice(),
        starts.as_slice(),
        targets.as_slice(),
        cosines,
        20,
    );
    let ghost core = moves@;
    r.append(&mut moves);
    r.push(Step::Say(Message::PairDone));
    proof {
        let opening = r@[0];
        lemma_reported(
            opening,
            core,
            Step::Say(Message::PairDone),
            channels@,
            starts@,
            targets@,
        );
        assert(r@ =~= seq![opening] + core + seq![Step::Say(Message::PairDone)]);
    }
    *current_1 = target_1;
    *current_2 = target_2;
    r
}

/// Moves one joint in 100 steps.
pub fn move_arm_safe_power(
    channel: Channel,
    current_pos: &mut u16,
    target_pos: u16,
    cosines: &Cosines,
) -> (r: Vec<Step>)
    requires
        cosines@.len() == POWER_STEPS,
    ensures
        *final(current_pos) == target_pos,
        r@ == glide(seq![channel], seq![*old(current_pos)], seq![target_pos], cosines@, 12),
        writes_between(r@, *old(current_pos), target_pos),
{
    let channels: [Channel; 1] = [channel];
    let starts: [u16; 1] = [*current_pos];
    let targets: [u16; 1] = [target_pos];
    assert(channels@ =~= seq![channel]);
    assert(starts@ =~= seq![*old(current_pos)]);
    assert(targets@ =~= seq![target_pos]);
    let r: Vec<Step> = glide_steps(
        channels.as_slice(),
        starts.as_slice(),
        targets.as_slice(),
        cosines,
        12,
    );
    proof {
        lemma_only_joint(r@, channel, *old(current_pos), target_pos);
    }
    *current_pos = target_pos;
    r
}

/// Moves one joint in 100 steps.
pub fn move_smoothly(
    channel: Channel,
    current_pos: &mut u16,
    target_pos: u16,
    cosines: &Cosines,
) -> (r: Vec<Step>)
    requires
        cosines@.len() == POWER_STEPS,
    ensures
        *final(current_pos) == target_pos,
        r@ == glide(seq![channel], seq![*old(current_pos)], seq![target_pos], cosines@, 12),
        writes_between(r@, *old(current_pos), target_pos),
{
    move_arm_safe_power(channel, current_pos, target_pos, cosines)
}

/// A shoulder position, brought into the safe range.
pub open spec fn safe_shoulder(target: u16) -> u16 {
    if target < SHOULDER_MIN {
        SHOULDER_MIN
    } else if target > SHOULDER_MAX {
        SHOULDER_MAX
    } else {
        target
    }
}

/// Moves the shoulder in 120 steps, to the nearest position of the safe range.
pub fn move_shoulder_safe(current_pos: &mut u16, target_pos: u16, cosines: &Cosines) -> (r: Vec<
    Step,
>)
    requires
        cosines@.len() == SHOULDER_STEPS,
    ensures
        *final(current_pos) == safe_shoulder(target_pos),
        r@ == glide(
            seq![Channel::C1],
            seq![*old(current_pos)],
            seq![safe_shoulder(target_pos)],
            cosines@,
            15,
        ),
        writes_between(r@, *old(current_pos), safe_shoulder(target_pos)),
{
    let safe_target: u16 = if target_pos < SHOULDER_MIN {
        SHOULDER_MIN
    } else if target_pos > SHOULDER_MAX {
        SHOULDER_MAX
    } else {
        target_pos
    };
    let channels: [Channel; 1] = [Channel::C1];
    let starts: [u16; 1] = [*current_pos];
    let targets: [u16; 1] = [safe_target];
    assert(channels@ =~= seq![Channel::C1]);
    assert(starts@ =~= seq![*old(current_pos)]);
    assert(targets@ =~= seq![safe_target]);
    let r: Vec<Step> = glide_steps(
        channels.as_slice(),
        starts.as_slice(),
        targets.as_slice(),
        cosines,
        15,
    );
    proof {
        lemma_only_joint(r@, Channel::C1, *old(current_pos), safe_target);
    }
    *current_pos = safe_target;
    r
}

/// The channels of the joints from shoulder to wrist.
pub open spec fn four_channels() -> Seq<Channel> {
    seq![Channel::C1, Channel::C2, Channel::C3, Channel::C4]
}

/// The plan of a move of four joints.
pub open spec fn four_move(starts: Seq<u16>, targets: Seq<u16>, cosines: Seq<Single>) -> Seq<Step> {
    seq![Step::Say(Message::FourStart)] + glide(four_channels(), starts, targets, cosines, 15)
        + seq![Step::Say(Message::FourDone)]
}

/// Moves four joints together in 120 steps.
pub fn move_4axis_organic(
    targets: [u16; 4],
    currents: &mut [u16; 4],
    cosines: &Cosines,
) -> (r: Vec<Step>)
    requires
        cosines@.len() == FOUR_STEPS,
    ensures
        *final(currents) == targets,
        r@ == four_move(old(currents)@, targets@, cosines@),
        on_the_way(r@, four_channels(), old(currents)@, targets@),
{
    let mut r: Vec<Step> = Vec::new();
    r.push(Step::Say(Message::FourStart));
    let channels: [Channel; 4] = [Channel::C1, Channel::C2, Channel::C3, Channel::C4];
    assert(channels@ =~= four_channels());
    let mut moves: Vec<Step> = glide_steps(
        channels.as_slice(),
        currents.as_slice(),
        targets.as_slice(),
        cosines,
        15,
    );
    let ghost core = moves@;
    r.append(&mut moves);
    r.push(Step::Say(Message::FourDone));
    proof {
        lemma_reported(
            Step::Say(Message::FourStart),
            core,
            Step::Say(Message::FourDone),
            channels@,
            currents@,
            targets@,
        );
        assert(r@ =~= four_move(currents@, targets@, cosines@));
    }
    *currents = targets;
    r
}

/// The channels of the joints from shoulder to blade.
pub open spec fn five_channels() -> Seq<Channel> {
    seq![Channel::C1, Channel::C2, Channel::C3, Channel::C4, Channel::C5]
}

/// The plan of a move of five joints.
pub open spec fn five_move(starts: Seq<u16>, targets: Seq<u16>, cosines: Seq<Single>) -> Seq<Step> {
    glide(five_channels(), starts, targets, cosines, 15)
}

/// Moves five joints together in 150 steps.
pub fn move_5axis_organic(
    targets: [u16; 5],
    currents: &mut [u16; 5],
    cosines: &Cosines,
) -> (r: Vec<Step>)
    requires
        cosines@.len() == FIVE_STEPS,
    ensures
        *final(currents) == targets,
        r@ == five_move(old(currents)@, targets@, cosines@),
        on_the_way(r@, five_channels(), old(currents)@, targets@),
{
    let channels: [Channel; 5] = [
        Channel::C1,
        Channel::C2,
        Channel::C3,
        Channel::C4,
        Channel::C5,
    ];
    assert(channels@ =~= five_channels());
    let r: Vec<Step> = glide_steps(
        channels.as_slice(),
        currents.as_slice(),
        targets.as_slice(),
        cosines,
        15,
    );
    *currents = targets;
    r
}

/// Every write of `plan` switches on at 0 and off between `low` and `high`.
pub open spec fn writes_within(plan: Seq<Step>, low: u16, high: u16) -> bool {
    forall|i: int|
        0 <= i < plan.len() ==> match #[trigger] plan[i] {
            Step::Write { on, off, .. } => on == 0 && low <= off <= high,
            Step::TryWrite { on, off, .. } => on == 0 && low <= off <= high,
            _ => true,
        }
}

/// Every write of `plan` to one of `channels` switches on at 0 and off between the bounds that
/// belong to that channel.
pub open spec fn in_bands(
    plan: Seq<Step>,
    channels: Seq<Channel>,
    low: Seq<u16>,
    high: Seq<u16>,
) -> bool {
    forall|i: int, a: int|
        0 <= i < plan.len() && 0 <= a < channels.len() ==> match #[trigger] plan[i] {
            Step::Write { channel, on, off } => channel == #[trigger] channels[a] ==> on == 0
                && low[a] <= off <= high[a],
            Step::TryWrite { channel, on, off } => channel == channels[a] ==> on == 0 && low[a]
                <= off <= high[a],
            _ => true,
        }
}

/// Each joint of `pose` lies between its bounds.
pub open spec fn pose_in_bands(pose: Seq<u16>, low: Seq<u16>, high: Seq<u16>) -> bool {
    &&& pose.len() == low.len()
    &&& pose.len() == high.len()
    &&& forall|a: int| 0 <= a < pose.len() ==> low[a] <= #[trigger] pose[a] <= high[a]
}

/// A move has one write for each joint and one pause for each step.
pub proof fn law_glide_length(
    channels: Seq<Channel>,
    starts: Seq<u16>,
    targets: Seq<u16>,
    cosines: Seq<Single>,
    ms: u32,
)
    ensures
        glide(channels, starts, targets, cosines, ms).len() == cosines.len() * (channels.len()
            + 1),
    decreases cosines.len(),
{
    if cosines.len() > 0 {
        law_glide_length(channels, starts, targets, cosines.drop_last(), ms);
        assert(cosines.len() * (channels.len() + 1) == (cosines.len() - 1) * (channels.len() + 1)
            + (channels.len() + 1)) by (nonlinear_arith);
    } else {
        assert(0 * (channels.len() + 1) == 0);
    }
}

/// What stands where when a frame comes behind other steps.
pub proof fn lemma_behind(first: Seq<Step>, frame: Seq<Step>, k: int)
    requires
        0 <= k < first.len() + frame.len(),
    ensures
        (first + frame)[k] == if k < first.len() {
            first[k]
        } else {
            frame[k - first.len()]
        },
{
}

/// Step `i` of a move is its frame: one write for each joint and then a pause.
pub proof fn law_glide_steps(
    channels: Seq<Channel>,
    starts: Seq<u16>,
    targets: Seq<u16>,
    cosines: Seq<Single>,
    ms: u32,
    i: int,
    k: int,
)
    requires
        0 <= i < cosines.len(),
        0 <= k <= channels.len(),
    ensures
        0 <= i * (channels.len() + 1) + k < glide(channels, starts, targets, cosines, ms).len(),
        glide(channels, starts, targets, cosines, ms)[i * (channels.len() + 1) + k] == if k
            < channels.len() {
            frame_write(channels, starts, targets, cosines[i], k)
        } else {
            Step::Pause { ms }
        },
    decreases cosines.len(),
{
    let n = (channels.len() + 1) as int;
    let before = cosines.drop_last();
    let last = frame(channels, starts, targets, cosines.last(), ms);
    law_glide_length(channels, starts, targets, before, ms);
    law_glide_length(channels, starts, targets, cosines, ms);
    assert(0 <= i * n && i * n + n <= cosines.len() * n && (i < before.len() ==> i * n + n
        <= before.len() * n)) by (nonlinear_arith)
        requires
            0 <= i < cosines.len(),
            before.len() == cosines.len() - 1,
            n > 0,
    ;
    lemma_behind(glide(channels, starts, targets, before, ms), last, i * n + k);
    if i < before.len() {
        law_glide_steps(channels, starts, targets, before, ms, i, k);
    }
}

/// At every step of a move, each joint is written once, in order and from count 0 on, and then
/// comes the pause. What is written is within one count of `start + (target - start) * (1 -
/// cosine) / 2`, but for a 64th of a count that rounding may take.
pub proof fn law_glide_course(
    channels: Seq<Channel>,
    starts: Seq<u16>,
    targets: Seq<u16>,
    cosines: Seq<Single>,
    ms: u32,
    i: int,
    a: int,
)
    requires
        starts.len() == channels.len(),
        targets.len() == channels.len(),
        crate::cosines::are_cosines(cosines),
        0 <= i < cosines.len(),
        0 <= a < channels.len(),
    ensures
        ({
            let plan = glide(channels, starts, targets, cosines, ms);
            let n = channels.len() + 1;
            let one = crate::number::Number::one();
            let twice = 2 * (starts[a] * one) + (targets[a] - starts[a]) * (one
                - cosines[i]@.place());
            &&& plan.len() == cosines.len() * n
            &&& plan[i * n + a] matches Step::Write { channel, on, off } && channel == channels[a]
                && on == 0 && crate::curve::eases(off, starts[a], targets[a], cosines[i]@) && 64
                * (off * one) <= 32 * twice + one && 32 * twice < 64 * ((off + 1) * one) + one
            &&& plan[i * n + channels.len()] == (Step::Pause { ms })
        }),
{
    law_glide_length(channels, starts, targets, cosines, ms);
    law_glide_steps(channels, starts, targets, cosines, ms, i, a);
    law_glide_steps(channels, starts, targets, cosines, ms, i, channels.len() as int);
    crate::curve::law_eased(starts[a], targets[a], cosines[i]@);
}

/// A move of four joints reports its start and its end, and in between writes C1 to C4, each on
/// its course, with a pause of 15 ms after every step.
pub proof fn law_four_course(
    starts: Seq<u16>,
    targets: Seq<u16>,
    cosines: Seq<Single>,
    i: int,
    a: int,
)
    requires
        starts.len() == 4,
        targets.len() == 4,
        crate::cosines::are_cosines(cosines),
        0 <= i < cosines.len(),
        0 <= a < 4,
    ensures
        ({
            let plan = four_move(starts, targets, cosines);
            let channels = seq![Channel::C1, Channel::C2, Channel::C3, Channel::C4];
            &&& plan.len() == 5 * cosines.len() + 2
            &&& plan[0] == Step::Say(Message::FourStart)
            &&& plan[5 * i + a + 1] matches Step::Write { channel, on, off } && channel
                == channels[a] && on == 0 && crate::curve::eases(
                off,
                starts[a],
                targets[a],
                cosines[i]@,
            )
            &&& plan[5 * i + 5] == (Step::Pause { ms: 15 })
            &&& plan[plan.len() - 1] == Step::Say(Message::FourDone)
        }),
{
    law_glide_course(four_channels(), starts, targets, cosines, 15, i, a);
    let n = four_channels().len() + 1;
    assert(i * n == 5 * i && cosines.len() * n == 5 * cosines.len()) by (nonlinear_arith)
        requires
            n == 5,
    ;
    let core = glide(four_channels(), starts, targets, cosines, 15);
    let plan = four_move(starts, targets, cosines);
    assert(plan[5 * i + a + 1] == core[5 * i + a]);
    assert(plan[5 * i + 5] == core[5 * i + 4]);
}

/// A move of five joints writes C1 to C5, each on its course, with a pause of 15 ms after every
/// step.
pub proof fn law_five_course(
    starts: Seq<u16>,
    targets: Seq<u16>,
    cosines: Seq<Single>,
    i: int,
    a: int,
)
    requires
        starts.len() == 5,
        targets.len() == 5,
        crate::cosines::are_cosines(cosines),
        0 <= i < cosines.len(),
        0 <= a < 5,
    ensures
        ({
            let plan = five_move(starts, targets, cosines);
            let channels = seq![
                Channel::C1,
                Channel::C2,
                Channel::C3,
                Channel::C4,
                Channel::C5,
            ];
            &&& plan.len() == 6 * cosines.len()
            &&& plan[6 * i + a] matches Step::Write { channel, on, off } && channel == channels[a]
                && on == 0 && crate::curve::eases(off, starts[a], targets[a], cosines[i]@)
            &&& plan[6 * i + 5] == (Step::Pause { ms: 15 })
        }),
{
    law_glide_course(five_channels(), starts, targets, cosines, 15, i, a);
    let n = five_channels().len() + 1;
    assert(i * n == 6 * i && cosines.len() * n == 6 * cosines.len()) by (nonlinear_arith)
        requires
            n == 6,
    ;
}

/// A joint whose start and target lie between two bounds is written only what lies between them.
/// In particular, a joint that stays where it is is written that position at every step.
pub proof fn law_glide_bands(
    channels: Seq<Channel>,
    starts: Seq<u16>,
    targets: Seq<u16>,
    cosines: Seq<Single>,
    ms: u32,
    low: Seq<u16>,
    high: Seq<u16>,
)
    requires
        channels.no_duplicates(),
        starts.len() == channels.len(),
        targets.len() == channels.len(),
        crate::cosines::are_cosines(cosines),
        pose_in_bands(starts, low, high),
        pose_in_bands(targets, low, high),
    ensures
        in_bands(glide(channels, starts, targets, cosines, ms), channels, low, high),
    decreases cosines.len(),
{
    if cosines.len() > 0 {
        let first = glide(channels, starts, targets, cosines.drop_last(), ms);
        let last = frame(channels, starts, targets, cosines.last(), ms);
        let plan = glide(channels, starts, targets, cosines, ms);
        crate::cosines::lemma_cosines_before(cosines);
        law_glide_bands(channels, starts, targets, cosines.drop_last(), ms, low, high);
        assert forall|i: int, a: int|
            0 <= i < plan.len() && 0 <= a < channels.len() implies match #[trigger] plan[i] {
            Step::Write { channel, on, off } => channel == #[trigger] channels[a] ==> on == 0
                && low[a] <= off <= high[a],
            Step::TryWrite { channel, on, off } => channel == channels[a] ==> on == 0 && low[a]
                <= off <= high[a],
            _ => true,
        } by {
            if i < first.len() {
                assert(plan[i] == first[i]);
            } else {
                let b = i - first.len();
                assert(plan[i] == last[b]);
                if b < channels.len() && channels[b] == channels[a] {
                    let c = cosines[cosines.len() - 1];
                    assert(low[a] <= starts[a] <= high[a] && low[a] <= targets[a] <= high[a]);
                    crate::curve::law_weight_is_share(c@);
                    crate::curve::law_no_overshoot(
                        starts[a],
                        targets[a],
                        crate::curve::weight(c@),
                    );
                }
            }
        }
    }
}

/// Every write of a move lies on the way between the start and the target of its joint.
pub proof fn law_glide_between(
    channels: Seq<Channel>,
    starts: Seq<u16>,
    targets: Seq<u16>,
    cosines: Seq<Single>,
    ms: u32,
)
    requires
        channels.no_duplicates(),
        starts.len() == channels.len(),
        targets.len() == channels.len(),
        crate::cosines::are_cosines(cosines),
    ensures
        on_the_way(glide(channels, starts, targets, cosines, ms), channels, starts, targets),
{
    let low = Seq::new(
        starts.len(),
        |a: int| if starts[a] <= targets[a] { starts[a] } else { targets[a] },
    );
    let high = Seq::new(
        starts.len(),
        |a: int| if starts[a] <= targets[a] { targets[a] } else { starts[a] },
    );
    law_glide_bands(channels, starts, targets, cosines, ms, low, high);
}

/// Every write of `plan` goes to one of `channels`, and a failure of it ends the program.
pub open spec fn only_channels(plan: Seq<Step>, channels: Seq<Channel>) -> bool {
    forall|i: int|
        0 <= i < plan.len() ==> match #[trigger] plan[i] {
            Step::Write { channel, .. } => channels.contains(channel),
            Step::TryWrite { .. } => false,
            _ => true,
        }
}

/// A move writes to its own joints only.
pub proof fn lemma_glide_channels(
    channels: Seq<Channel>,
    starts: Seq<u16>,
    targets: Seq<u16>,
    cosines: Seq<Single>,
    ms: u32,
)
    ensures
        only_channels(glide(channels, starts, targets, cosines, ms), channels),
    decreases cosines.len(),
{
    if cosines.len() > 0 {
        lemma_glide_channels(channels, starts, targets, cosines.drop_last(), ms);
        let first = glide(channels, starts, targets, cosines.drop_last(), ms);
        let plan = glide(channels, starts, targets, cosines, ms);
        assert forall|i: int| 0 <= i < plan.len() implies match #[trigger] plan[i] {
            Step::Write { channel, .. } => channels.contains(channel),
            Step::TryWrite { .. } => false,
            _ => true,
        } by {
            if i < first.len() {
                assert(plan[i] == first[i]);
            } else {
                let a = i - first.len();
                if a < channels.len() {
                    assert(plan[i] == frame_write(channels, starts, targets, cosines.last(), a));
                    assert(channels.contains(channels[a]));
                }
            }
        }
    }
}

/// In the plan of a single joint, what is written to it is all that is written.
proof fn lemma_only_joint(plan: Seq<Step>, channel: Channel, from: u16, to: u16)
    requires
        only_channels(plan, seq![channel]),
        on_the_way(plan, seq![channel], seq![from], seq![to]),
    ensures
        writes_between(plan, from, to),
{
    let channels = seq![channel];
    assert forall|i: int| 0 <= i < plan.len() implies match #[trigger] plan[i] {
        Step::Write { off, .. } => lies_between(off, from, to),
        Step::TryWrite { off, .. } => lies_between(off, from, to),
        _ => true,
    } by {
        assert(channels[0] == channel);
    }
}

/// Reports before and after a plan write nothing.
proof fn lemma_reported(
    before: Step,
    plan: Seq<Step>,
    after: Step,
    channels: Seq<Channel>,
    starts: Seq<u16>,
    targets: Seq<u16>,
)
    requires
        before is Say,
        after is Say,
        on_the_way(plan, channels, starts, targets),
    ensures
        on_the_way(seq![before] + plan + seq![after], channels, starts, targets),
{
    let whole = seq![before] + plan + seq![after];
    assert forall|i: int, a: int|
        #![trigger whole[i], channels[a]]
        0 <= i < whole.len() && 0 <= a < channels.len() implies match written(
        whole[i],
        channels[a],
    ) {
        Some(off) => lies_between(off, starts[a], targets[a]),
        None => true,
    } by {
        if 0 < i <= plan.len() {
            assert(whole[i] == plan[i - 1]);
        }
    }
}

/// A move whose last cosine is -1 ends with every joint at its target.
pub proof fn law_glide_arrives(
    channels: Seq<Channel>,
    starts: Seq<u16>,
    targets: Seq<u16>,
    cosines: Seq<Single>,
    ms: u32,
    a: int,
)
    requires
        starts.len() == channels.len(),
        targets.len() == channels.len(),
        cosines.len() > 0,
        crate::curve::is_cosine(cosines.last()@),
        cosines.last()@.place() == -crate::number::Number::one(),
        0 <= a < channels.len(),
    ensures
        ({
            let plan = glide(channels, starts, targets, cosines, ms);
            plan[plan.len() - 1 - channels.len() + a] == (Step::Write {
                channel: channels[a],
                on: 0,
                off: targets[a],
            })
        }),
{
    let c = cosines.last()@;
    crate::curve::law_weight_is_share(c);
    crate::curve::law_weight_ends(c);
    crate::curve::law_ends(starts[a], targets[a], crate::curve::weight(c));
}

/// On its way a joint only ever comes nearer to its target while the cosines fall: what step `j`
/// writes lies between what step `i` before it wrote and the target.
pub proof fn law_glide_onward(
    channels: Seq<Channel>,
    starts: Seq<u16>,
    targets: Seq<u16>,
    cosines: Seq<Single>,
    ms: u32,
    i: int,
    j: int,
    a: int,
)
    requires
        crate::cosines::are_cosines(cosines),
        0 <= i <= j < cosines.len(),
        0 <= a < channels.len(),
        starts.len() == channels.len(),
        targets.len() == channels.len(),
        cosines[j]@.place() <= cosines[i]@.place(),
    ensures
        ({
            let plan = glide(channels, starts, targets, cosines, ms);
            let n = channels.len() + 1;
            let earlier = plan[i * n + a]->Write_off;
            let later = plan[j * n + a]->Write_off;
            &&& plan[i * n + a] is Write
            &&& plan[j * n + a] is Write
            &&& starts[a] <= targets[a] ==> earlier <= later <= targets[a]
            &&& targets[a] <= starts[a] ==> targets[a] <= later <= earlier
        }),
{
    let w1 = crate::curve::weight(cosines[i]@);
    let w2 = crate::curve::weight(cosines[j]@);
    law_glide_steps(channels, starts, targets, cosines, ms, i, a);
    law_glide_steps(channels, starts, targets, cosines, ms, j, a);
    crate::curve::law_weight_is_share(cosines[i]@);
    crate::curve::law_weight_is_share(cosines[j]@);
    crate::curve::law_weight_onward(cosines[i]@, cosines[j]@);
    crate::curve::law_onward(starts[a], targets[a], w1, w2);
    crate::curve::law_no_overshoot(starts[a], targets[a], w2);
}

/// The shoulder always ends in its safe range.
pub proof fn law_shoulder_safe(target: u16)
    ensures
        200 <= safe_shoulder(target) <= 420,
        target <= 200 ==> safe_shoulder(target) == 200,
        target >= 420 ==> safe_shoulder(target) == 420,
        200 <= target <= 420 ==> safe_shoulder(target) == target,
        SHOULDER_MIN <= safe_shoulder(target) <= SHOULDER_MAX,
        SHOULDER_MIN <= target <= SHOULDER_MAX ==> safe_shoulder(target) == target,
{
}

/// A shoulder that is sent to the same place again holds still: all that is written is where it
/// stands.
pub proof fn law_shoulder_again(target: u16, cosines: Seq<Single>)
    requires
        crate::cosines::are_cosines(cosines),
    ensures
        ({
            let at = safe_shoulder(target);
            &&& safe_shoulder(at) == at
            &&& writes_within(glide(seq![Channel::C1], seq![at], seq![at], cosines, 15), at, at)
        }),
{
    let at = safe_shoulder(target);
    let plan = glide(seq![Channel::C1], seq![at], seq![at], cosines, 15);
    law_glide_bands(
        seq![Channel::C1],
        seq![at],
        seq![at],
        cosines,
        15,
        seq![at],
        seq![at],
    );
    lemma_glide_channels(seq![Channel::C1], seq![at], seq![at], cosines, 15);
    assert forall|i: int| 0 <= i < plan.len() implies match #[trigger] plan[i] {
        Step::Write { on, off, .. } => on == 0 && at <= off <= at,
        Step::TryWrite { on, off, .. } => on == 0 && at <= off <= at,
        _ => true,
    } by {
        assert(seq![Channel::C1][0] == Channel::C1);
    }
}

/// The way that a joint takes through a plan.
pub enum Heading {
    /// It never falls.
    Up,
    /// It never rises.
    Down,
    /// It does not move.
    Still,
}

/// Whether going from `from` to `to` keeps to a heading.
pub open spec fn keeps(heading: Heading, from: u16, to: u16) -> bool {
    match heading {
        Heading::Up => from <= to,
        Heading::Down => to <= from,
        Heading::Still => from == to,
    }
}

/// What a step writes to `channel`, if anything.
pub open spec fn written(step: Step, channel: Channel) -> Option<u16> {
    match step {
        Step::Write { channel: c, off, .. } if c == channel => Some(off),
        Step::TryWrite { channel: c, off, .. } if c == channel => Some(off),
        _ => None,
    }
}

/// The writes of `plan` to `channel` keep to a heading, one after the other.
pub open spec fn heads(plan: Seq<Step>, channel: Channel, heading: Heading) -> bool {
    forall|i: int, j: int|
        0 <= i <= j < plan.len() ==> match (
            written(#[trigger] plan[i], channel),
            written(#[trigger] plan[j], channel),
        ) {
            (Some(earlier), Some(later)) => keeps(heading, earlier, later),
            _ => true,
        }
}

/// The writes of `plan` to `channel` lie on the way from `from` to `to`.
pub open spec fn spans(
    plan: Seq<Step>,
    channel: Channel,
    heading: Heading,
    from: u16,
    to: u16,
) -> bool {
    forall|i: int|
        0 <= i < plan.len() ==> match written(#[trigger] plan[i], channel) {
            Some(off) => keeps(heading, from, off) && keeps(heading, off, to),
            None => true,
        }
}

/// Two plans that keep to a heading and meet in `mid` keep to it together.
pub proof fn law_heads_append(
    first: Seq<Step>,
    second: Seq<Step>,
    channel: Channel,
    heading: Heading,
    from: u16,
    mid: u16,
    to: u16,
)
    requires
        heads(first, channel, heading),
        heads(second, channel, heading),
        spans(first, channel, heading, from, mid),
        spans(second, channel, heading, mid, to),
        keeps(heading, from, mid),
        keeps(heading, mid, to),
    ensures
        heads(first + second, channel, heading),
        spans(first + second, channel, heading, from, to),
{
    let plan = first + second;
    let n = first.len() as int;
    assert forall|i: int| 0 <= i < plan.len() implies match written(#[trigger] plan[i], channel) {
        Some(off) => keeps(heading, from, off) && keeps(heading, off, to),
        None => true,
    } by {
        if i < n {
            assert(plan[i] == first[i]);
        } else {
            assert(plan[i] == second[i - n]);
        }
    }
    assert forall|i: int, j: int| 0 <= i <= j < plan.len() implies match (
        written(#[trigger] plan[i], channel),
        written(#[trigger] plan[j], channel),
    ) {
        (Some(earlier), Some(later)) => keeps(heading, earlier, later),
        _ => true,
    } by {
        if j < n {
            assert(plan[i] == first[i] && plan[j] == first[j]);
        } else if i < n {
            assert(plan[i] == first[i] && plan[j] == second[j - n]);
        } else {
            assert(plan[i] == second[i - n] && plan[j] == second[j - n]);
        }
    }
}

/// While the cosines fall, every joint of a move keeps to the way from its start to its target.
pub proof fn law_glide_heads(
    channels: Seq<Channel>,
    starts: Seq<u16>,
    targets: Seq<u16>,
    cosines: Seq<Single>,
    ms: u32,
    a: int,
    heading: Heading,
)
    requires
        channels.no_duplicates(),
        starts.len() == channels.len(),
        targets.len() == channels.len(),
        crate::cosines::are_cosines(cosines),
        crate::cosines::are_falling(cosines),
        0 <= a < channels.len(),
        keeps(heading, starts[a], targets[a]),
    ensures
        heads(glide(channels, starts, targets, cosines, ms), channels[a], heading),
        spans(
            glide(channels, starts, targets, cosines, ms),
            channels[a],
            heading,
            starts[a],
            targets[a],
        ),
{
    lemma_glide_heads(channels, starts, targets, cosines, ms, a, heading);
    let plan = glide(channels, starts, targets, cosines, ms);
    if cosines.len() > 0 {
        let c = cosines[cosines.len() - 1];
        crate::curve::law_weight_is_share(c@);
        crate::curve::law_no_overshoot(starts[a], targets[a], crate::curve::weight(c@));
        let reached = reached(starts, targets, cosines, a);
        assert(keeps(heading, reached, targets[a]));
        assert forall|i: int| 0 <= i < plan.len() implies match written(
            #[trigger] plan[i],
            channels[a],
        ) {
            Some(off) => keeps(heading, starts[a], off) && keeps(heading, off, targets[a]),
            None => true,
        } by {}
    }
}

/// Where joint `a` is after `cosines`.
spec fn reached(starts: Seq<u16>, targets: Seq<u16>, cosines: Seq<Single>, a: int) -> u16 {
    if cosines.len() == 0 {
        starts[a]
    } else {
        crate::curve::between(starts[a], targets[a], crate::curve::weight(cosines.last()@))
    }
}

proof fn lemma_glide_heads(
    channels: Seq<Channel>,
    starts: Seq<u16>,
    targets: Seq<u16>,
    cosines: Seq<Single>,
    ms: u32,
    a: int,
    heading: Heading,
)
    requires
        channels.no_duplicates(),
        starts.len() == channels.len(),
        targets.len() == channels.len(),
        crate::cosines::are_cosines(cosines),
        crate::cosines::are_falling(cosines),
        0 <= a < channels.len(),
        keeps(heading, starts[a], targets[a]),
    ensures
        heads(glide(channels, starts, targets, cosines, ms), channels[a], heading),
        spans(
            glide(channels, starts, targets, cosines, ms),
            channels[a],
            heading,
            starts[a],
            reached(starts, targets, cosines, a),
        ),
        keeps(heading, starts[a], reached(starts, targets, cosines, a)),
    decreases cosines.len(),
{
    if cosines.len() > 0 {
        let before = cosines.drop_last();
        let c = cosines[cosines.len() - 1];
        crate::cosines::lemma_cosines_before(cosines);
        assert forall|i: int, j: int| 0 <= i <= j < before.len() implies (
        #[trigger] before[j])@.place() <= (#[trigger] before[i])@.place() by {
            assert(before[i] == cosines[i] && before[j] == cosines[j]);
        }
        lemma_glide_heads(channels, starts, targets, before, ms, a, heading);
        let mid = reached(starts, targets, before, a);
        let end = reached(starts, targets, cosines, a);
        let w = crate::curve::weight(c@);
        crate::curve::law_weight_is_share(c@);
        crate::curve::law_no_overshoot(starts[a], targets[a], w);
        if before.len() > 0 {
            let b = cosines[cosines.len() - 2];
            assert(before.last() == b);
            crate::curve::law_weight_is_share(b@);
            crate::curve::law_weight_onward(b@, c@);
            crate::curve::law_onward(starts[a], targets[a], crate::curve::weight(b@), w);
        }
        assert(keeps(heading, mid, end));
        let last = frame(channels, starts, targets, cosines.last(), ms);
        assert forall|i: int| 0 <= i < last.len() implies match written(
            #[trigger] last[i],
            channels[a],
        ) {
            Some(off) => i == a && off == end,
            None => true,
        } by {
            if i < channels.len() {
                assert(last[i] == frame_write(channels, starts, targets, cosines.last(), i));
            }
        }
        law_heads_append(
            glide(channels, starts, targets, before, ms),
            last,
            channels[a],
            heading,
            starts[a],
            mid,
            end,
        );
    }
}

} // verus!
