//! Moves at constant speed.

use vstd::prelude::*;

use crate::step::{Channel, Step};

verus! {

/// The duty that follows `current` on the way to `target`: two counts nearer, or two counts past
/// it from the count next to it.
pub open spec fn next_duty(current: int, target: int) -> int {
    if current < target {
        current + 2
    } else {
        current - 2
    }
}

/// The duty after `n` turns on the way to `target`.
pub open spec fn duty_after(current: int, target: int, n: nat) -> int
    decreases n,
{
    if n == 0 || current == target {
        current
    } else {
        duty_after(next_duty(current, target), target, (n - 1) as nat)
    }
}

/// One turn of the way of the timer output to `target`, by two counts. There is none left once
/// the target is met.
pub fn move_to_target(current: &mut u32, target: u32) -> (r: Option<(Step, Step)>)
    requires
        *old(current) < target ==> *old(current) + 2 <= u32::MAX,
        *old(current) > target ==> *old(current) >= 2,
    ensures
        *old(current) == target ==> r is None && *final(current) == target,
        *old(current) != target ==> {
            &&& *final(current) == next_duty(*old(current) as int, target as int)
            &&& *old(current) < target ==> *final(current) == *old(current) + 2
            &&& *old(current) > target ==> *final(current) == *old(current) - 2
            &&& r == Some((Step::Duty { duty: *final(current) }, Step::Pause { ms: 15 }))
        },
{
    if *current == target {
        return None;
    }
    if *current < target {
        *current = *current + 2;
    } else {
        *current = *current - 2;
    }
    Some((Step::Duty { duty: *current }, Step::Pause { ms: 15 }))
}

/// Where the distance to the target is even, half of it is the number of turns to the target.
pub proof fn law_duty_arrives(current: int, target: int)
    requires
        (target - current) % 2 == 0,
    ensures
        current <= target ==> duty_after(current, target, ((target - current) / 2) as nat)
            == target,
        target <= current ==> duty_after(current, target, ((current - target) / 2) as nat)
            == target,
    decreases
            if current < target {
                target - current
            } else {
                current - target
            },
{
    if current != target {
        law_duty_arrives(next_duty(current, target), target);
    }
}

/// Where the distance to the target is even, no turn goes past the target, so that every turn can
/// be taken.
pub proof fn law_duty_between(current: int, target: int, n: nat)
    requires
        (target - current) % 2 == 0,
    ensures
        current <= target ==> current <= duty_after(current, target, n) <= target,
        target <= current ==> target <= duty_after(current, target, n) <= current,
    decreases n,
{
    if n > 0 && current != target {
        law_duty_between(next_duty(current, target), target, (n - 1) as nat);
    }
}

/// Where the distance to the target is odd, no number of turns meets the target.
pub proof fn law_duty_misses(current: int, target: int, n: nat)
    requires
        (target - current) % 2 != 0,
    ensures
        duty_after(current, target, n) != target,
    decreases n,
{
    if n > 0 {
        law_duty_misses(next_duty(current, target), target, (n - 1) as nat);
    }
}

/// The count after `n` single counts from `from` towards `to`.
pub open spec fn counted(from: int, to: int, n: int) -> int {
    if from < to {
        from + n
    } else {
        from - n
    }
}

/// The distance between two counts.
pub open spec fn distance(from: int, to: int) -> nat {
    if from < to {
        (to - from) as nat
    } else {
        (from - to) as nat
    }
}

/// The plan of a move of one joint by single counts, each followed by a pause.
pub open spec fn single_counts(channel: Channel, from: u16, to: u16) -> Seq<Step> {
    Seq::new(
        2 * distance(from as int, to as int),
        |i: int|
            if i % 2 == 0 {
                Step::Write { channel, on: 0, off: counted(from as int, to as int, i / 2 + 1) as u16
                }
            } else {
                Step::Pause { ms: 10 }
            },
    )
}

/// Moves one joint by single counts.
pub fn move_pca_smooth(channel: Channel, from: u16, to: u16) -> (r: Vec<Step>)
    ensures
        r@ == single_counts(channel, from, to),
{
    let up: bool = from < to;
    let mut r: Vec<Step> = Vec::new();
    let mut current: u16 = from;
    while current != to
        invariant
            up == (from < to),
            up ==> from <= current <= to,
            !up ==> to <= current <= from,
            r@ =~= single_counts(channel, from, to).take(
                2 * distance(from as int, current as int) as int,
            ),
        decreases distance(current as int, to as int),
    {
        let ghost n = distance(from as int, current as int);
        let ghost whole = single_counts(channel, from, to);
        if up {
            current = current + 1;
        } else {
            current = current - 1;
        }
        r.push(Step::Write { channel, on: 0, off: current });
        r.push(Step::Pause { ms: 10 });
        assert(whole[2 * n as int] == (Step::Write { channel, on: 0, off: current }));
        assert(whole[2 * n as int + 1] == (Step::Pause { ms: 10 }));
        assert(r@ =~= whole.take(2 * n as int + 2));
    }
    assert(single_counts(channel, from, to).take(2 * distance(from as int, to as int) as int)
        =~= single_counts(channel, from, to));
    r
}

/// A move by single counts has one write for every count between its ends, each one count further,
/// and a pause of 10 ms after each.
pub proof fn law_every_count(channel: Channel, from: u16, to: u16, i: int)
    ensures
        from <= to ==> single_counts(channel, from, to).len() == 2 * (to - from),
        to <= from ==> single_counts(channel, from, to).len() == 2 * (from - to),
        0 <= i < to - from ==> (single_counts(channel, from, to)[2 * i] matches Step::Write {
            channel: c,
            on,
            off,
        } && c == channel && on == 0 && off == from + i + 1),
        0 <= i < from - to ==> (single_counts(channel, from, to)[2 * i] matches Step::Write {
            channel: c,
            on,
            off,
        } && c == channel && on == 0 && off == from - i - 1),
        0 <= i < to - from || 0 <= i < from - to ==> single_counts(channel, from, to)[2 * i + 1]
            == (Step::Pause { ms: 10 }),
{
}

/// The duty goes by two counts at every turn, up below the target and down above it.
pub proof fn law_duty_by_two(current: int, target: int, n: nat)
    ensures
        current < target ==> duty_after(current, target, n + 1) == duty_after(
            current + 2,
            target,
            n,
        ),
        current > target ==> duty_after(current, target, n + 1) == duty_after(
            current - 2,
            target,
            n,
        ),
        duty_after(current, target, 0) == current,
        duty_after(target, target, n) == target,
{
}

/// A move by single counts writes only what lies between its ends, and its last write is the
/// target.
pub proof fn law_single_counts(channel: Channel, from: u16, to: u16, low: u16, high: u16)
    requires
        low <= from <= high,
        low <= to <= high,
    ensures
        crate::glide::writes_within(single_counts(channel, from, to), low, high),
        from != to ==> ({
            let plan = single_counts(channel, from, to);
            plan[plan.len() - 2] == (Step::Write { channel, on: 0, off: to })
        }),
{
}

/// One turn of the blade joint towards `target_angle`, by one count. There is none left once the
/// target is met. The board takes the low 16 bits of the count.
pub fn run_c5_power_test(current_angle: &mut u32, target_angle: u32) -> (r: Option<(Step, Step)>)
    ensures
        *old(current_angle) == target_angle ==> r is None && *final(current_angle) == target_angle,
        *old(current_angle) != target_angle ==> {
            &&& *final(current_angle) == counted(*old(current_angle) as int, target_angle as int, 1)
            &&& *old(current_angle) < target_angle ==> *final(current_angle) == *old(current_angle)
                + 1
            &&& *old(current_angle) > target_angle ==> *final(current_angle) == *old(current_angle)
                - 1
            &&& r == Some(
                (
                    Step::Write {
                        channel: Channel::C5,
                        on: 0,
                        off: (*final(current_angle) % 0x1_0000) as u16,
                    },
                    Step::Pause { ms: 20 },
                ),
            )
        },
{
    if *current_angle == target_angle {
        return None;
    }
    if *current_angle < target_angle {
        *current_angle = *current_angle + 1;
    } else {
        *current_angle = *current_angle - 1;
    }
    let off: u16 = (*current_angle % 0x1_0000) as u16;
    Some((Step::Write { channel: Channel::C5, on: 0, off }, Step::Pause { ms: 20 }))
}

/// The count of the blade joint after `n` turns towards `target`.
pub open spec fn blade_after(current: int, target: int, n: nat) -> int
    decreases n,
{
    if n == 0 || current == target {
        current
    } else {
        blade_after(counted(current, target, 1), target, (n - 1) as nat)
    }
}

/// The blade joint goes by one count at every turn, up below the target and down above it.
pub proof fn law_blade_by_one(current: int, target: int, n: nat)
    ensures
        current < target ==> blade_after(current, target, n + 1) == blade_after(
            current + 1,
            target,
            n,
        ),
        current > target ==> blade_after(current, target, n + 1) == blade_after(
            current - 1,
            target,
            n,
        ),
        blade_after(current, target, 0) == current,
        blade_after(target, target, n) == target,
{
}

/// The blade joint meets its target after as many turns as it is away from it.
pub proof fn law_blade_arrives(current: int, target: int)
    ensures
        blade_after(current, target, distance(current, target)) == target,
    decreases distance(current, target),
{
    if current != target {
        law_blade_arrives(counted(current, target, 1), target);
    }
}

} // verus!
