use robot_arm::cosines::Cosines;
use robot_arm::curve::{ease, phases, position};
use robot_arm::glide::{
    glide_phases, move_4axis_organic, move_5axis_organic, move_arm_safe_power, move_arm_smooth,
    move_arms_simultaneous, move_shoulder_safe, move_smoothly, FIVE_STEPS, FOUR_STEPS, PAIR_STEPS,
    POWER_STEPS, SHOULDER_MAX, SHOULDER_MIN, SHOULDER_STEPS, SMOOTH_STEPS,
};
use robot_arm::ramp::{move_pca_smooth, move_to_target, run_c5_power_test};
use robot_arm::single::Single;
use robot_arm::step::{Channel, Message, Step};

fn cosines(steps: u32) -> Cosines {
    let mut all: Vec<Single> = Vec::new();
    for p in glide_phases(steps) {
        all.push(Single { bits: f32::from_bits(p.bits).cos().to_bits() });
    }
    Cosines::new(all).unwrap()
}

fn weight_at(i: u32, steps: u32) -> f32 {
    let t = i as f32 / steps as f32;
    (1.0 - (t * std::f32::consts::PI).cos()) / 2.0
}

fn expected(start: u16, target: u16, i: u32, steps: u32) -> u16 {
    let s = start as f32;
    let diff = target as f32 - s;
    (s + diff * weight_at(i, steps)) as u16
}

fn write(channel: Channel, off: u16) -> Step {
    Step::Write { channel, on: 0, off }
}

/// What a move of `channels` writes, in floating point.
fn expected_glide(
    channels: &[Channel],
    starts: &[u16],
    targets: &[u16],
    steps: u32,
    ms: u32,
) -> Vec<Step> {
    let mut plan: Vec<Step> = Vec::new();
    for i in 1..=steps {
        for a in 0..channels.len() {
            plan.push(write(channels[a], expected(starts[a], targets[a], i, steps)));
        }
        plan.push(Step::Pause { ms });
    }
    plan
}

#[test]
fn phases_run_to_half_a_turn() {
    for steps in [40u32, 50, 60, 100, 120, 150] {
        let all = phases(0, steps);
        assert_eq!(all.len(), steps as usize + 1);
        assert_eq!(all[0].bits, 0.0f32.to_bits());
        assert_eq!(all[steps as usize].bits, std::f32::consts::PI.to_bits());
        for i in 0..=steps {
            let t = i as f32 / steps as f32;
            assert_eq!(all[i as usize].bits, (t * std::f32::consts::PI).to_bits());
        }
    }
    assert_eq!(phases(1, 40).len(), 40);
}

#[test]
fn eased_moves_leave_out_the_start() {
    for steps in [1u32, 40, 50, 60, 100, 120, 150, 0xFF_FFFF / 0x1000] {
        let all = glide_phases(steps);
        assert_eq!(all.len(), steps as usize);
        assert_eq!(all[steps as usize - 1].bits, std::f32::consts::PI.to_bits());
        for i in 1..=steps {
            let t = i as f32 / steps as f32;
            assert_eq!(all[i as usize - 1].bits, (t * std::f32::consts::PI).to_bits());
        }
        assert_eq!(all, phases(1, steps));
    }
}

#[test]
fn moves_never_turn_back() {
    let c = cosines(POWER_STEPS);
    for (start, target) in [(150u16, 600u16), (600, 150), (300, 300), (0, 65535), (417, 418)] {
        let mut p = start;
        let mut before = start;
        for step in move_smoothly(Channel::C4, &mut p, target, &c) {
            if let Step::Write { off, .. } = step {
                assert!(if start <= target { before <= off } else { off <= before });
                before = off;
            }
        }
        assert_eq!(before, target);
    }
}

#[test]
fn ease_runs_from_nothing_to_everything() {
    let one = Single { bits: 1.0f32.to_bits() };
    let zero = Single { bits: 0.0f32.to_bits() };
    let minus = Single { bits: (-1.0f32).to_bits() };
    assert_eq!(ease(one).bits, 0.0f32.to_bits());
    assert_eq!(ease(zero).bits, 0.5f32.to_bits());
    assert_eq!(ease(minus).bits, 1.0f32.to_bits());
    assert_eq!(position(300, 500, ease(one)), 300);
    assert_eq!(position(300, 500, ease(zero)), 400);
    assert_eq!(position(300, 500, ease(minus)), 500);
    assert_eq!(position(500, 300, ease(zero)), 400);
}

#[test]
fn positions_never_overshoot() {
    let c = cosines(150);
    for (start, target) in [(0u16, 65535u16), (65535, 0), (150, 600), (600, 151), (7, 7)] {
        let mut last = start;
        for i in 0..c.len() {
            let p = position(start, target, ease(c.at(i)));
            if start <= target {
                assert!(last <= p && p <= target);
            } else {
                assert!(target <= p && p <= last);
            }
            last = p;
        }
        assert_eq!(last, target);
    }
}

#[test]
fn smooth_move_follows_the_curve() {
    let c = cosines(SMOOTH_STEPS);
    for (start, target) in [(300u16, 480u16), (480, 300), (150, 600), (0, 4095), (301, 300)] {
        let mut pos = start;
        let plan = move_arm_smooth(Channel::C2, &mut pos, target, &c);
        assert_eq!(pos, target);
        assert_eq!(plan, expected_glide(&[Channel::C2], &[start], &[target], 40, 15));
        assert_eq!(plan[plan.len() - 2], write(Channel::C2, target));
    }
}

#[test]
fn smooth_move_to_where_it_is_does_nothing() {
    let c = cosines(SMOOTH_STEPS);
    let mut pos = 400u16;
    assert_eq!(move_arm_smooth(Channel::C1, &mut pos, 400, &c), Vec::new());
    assert_eq!(pos, 400);
}

#[test]
fn pair_moves_together() {
    let c = cosines(PAIR_STEPS);
    let mut a = 240u16;
    let mut b = 350u16;
    let plan = move_arms_simultaneous(400, 150, &mut a, &mut b, &c);
    assert_eq!((a, b), (400, 150));
    assert_eq!(plan.len(), 2 + 50 * 3);
    assert_eq!(
        plan[0],
        Step::Say(Message::PairStart { from_1: 240, to_1: 400, from_2: 350, to_2: 150 })
    );
    assert_eq!(plan[plan.len() - 1], Step::Say(Message::PairDone));
    assert_eq!(
        plan[1..plan.len() - 1].to_vec(),
        expected_glide(&[Channel::C1, Channel::C2], &[240, 350], &[400, 150], 50, 20)
    );
}

#[test]
fn powerful_moves_take_a_hundred_steps() {
    let c = cosines(POWER_STEPS);
    let mut p = 300u16;
    let plan = move_arm_safe_power(Channel::C4, &mut p, 420, &c);
    assert_eq!(p, 420);
    assert_eq!(plan, expected_glide(&[Channel::C4], &[300], &[420], 100, 12));
    let mut q = 300u16;
    assert_eq!(move_smoothly(Channel::C4, &mut q, 420, &c), plan);
    assert_eq!(q, 420);
}

#[test]
fn shoulder_keeps_to_its_range() {
    let c = cosines(SHOULDER_STEPS);
    let cases =
        [(0u16, 200u16), (199, 200), (200, 200), (320, 320), (420, 420), (421, 420), (600, 420)];
    for (target, safe) in cases {
        let mut p = 450u16;
        let plan = move_shoulder_safe(&mut p, target, &c);
        assert_eq!(p, safe);
        assert!(SHOULDER_MIN <= p && p <= SHOULDER_MAX);
        assert_eq!(plan, expected_glide(&[Channel::C1], &[450], &[safe], 120, 15));
    }
}

#[test]
fn four_joints_move_together() {
    let c = cosines(FOUR_STEPS);
    let mut at = [450u16, 300, 300, 300];
    let plan = move_4axis_organic([300, 450, 200, 420], &mut at, &c);
    assert_eq!(at, [300, 450, 200, 420]);
    assert_eq!(plan[0], Step::Say(Message::FourStart));
    assert_eq!(plan[plan.len() - 1], Step::Say(Message::FourDone));
    assert_eq!(
        plan[1..plan.len() - 1].to_vec(),
        expected_glide(
            &[Channel::C1, Channel::C2, Channel::C3, Channel::C4],
            &[450, 300, 300, 300],
            &[300, 450, 200, 420],
            120,
            15
        )
    );
}

#[test]
fn five_joints_move_together() {
    let c = cosines(FIVE_STEPS);
    let mut at = [450u16, 300, 300, 300, 300];
    let plan = move_5axis_organic([250, 300, 200, 450, 500], &mut at, &c);
    assert_eq!(at, [250, 300, 200, 450, 500]);
    assert_eq!(plan.len(), 150 * 6);
    assert_eq!(
        plan,
        expected_glide(
            &[Channel::C1, Channel::C2, Channel::C3, Channel::C4, Channel::C5],
            &[450, 300, 300, 300, 300],
            &[250, 300, 200, 450, 500],
            150,
            15
        )
    );
}

#[test]
fn single_counts_up_and_down() {
    assert_eq!(
        move_pca_smooth(Channel::C3, 300, 302),
        vec![
            write(Channel::C3, 301),
            Step::Pause { ms: 10 },
            write(Channel::C3, 302),
            Step::Pause { ms: 10 },
        ]
    );
    assert_eq!(
        move_pca_smooth(Channel::C3, 300, 299),
        vec![write(Channel::C3, 299), Step::Pause { ms: 10 }]
    );
    assert_eq!(move_pca_smooth(Channel::C3, 300, 300), Vec::new());
}

#[test]
fn duty_arrives_over_an_even_distance() {
    let mut current = 1229u32;
    let mut turns = 0;
    while let Some((first, second)) = move_to_target(&mut current, 1239) {
        turns += 1;
        assert_eq!(first, Step::Duty { duty: 1229 + 2 * turns });
        assert_eq!(second, Step::Pause { ms: 15 });
    }
    assert_eq!(turns, 5);
    assert_eq!(current, 1239);
}

#[test]
fn duty_swings_over_an_odd_distance() {
    let mut current = 10u32;
    let mut seen: Vec<u32> = Vec::new();
    for _ in 0..4 {
        assert!(move_to_target(&mut current, 13).is_some());
        seen.push(current);
    }
    assert_eq!(seen, vec![12, 14, 12, 14]);
}

#[test]
fn blade_arrives() {
    let mut angle = 300u32;
    let mut turns = 0;
    while let Some((first, second)) = run_c5_power_test(&mut angle, 185) {
        turns += 1;
        assert_eq!(first, write(Channel::C5, 300 - turns));
        assert_eq!(second, Step::Pause { ms: 20 });
    }
    assert_eq!(turns, 115);
    assert_eq!(angle, 185);
    let mut high = 0x1_0000u32;
    assert_eq!(
        run_c5_power_test(&mut high, 0x1_0005),
        Some((write(Channel::C5, 1), Step::Pause { ms: 20 }))
    );
}

#[test]
fn cosines_lie_between_minus_one_and_one() {
    for good in [-1.0f32, -0.999, -1.0e-45, -0.0, 0.0, 1.0e-45, 0.5, 1.0] {
        let c = Cosines::new(vec![Single { bits: good.to_bits() }]).unwrap();
        assert_eq!(c.len(), 1);
        assert_eq!(c.at(0).bits, good.to_bits());
    }
    let above = f32::from_bits(1.0f32.to_bits() + 1);
    for bad in [above, -above, 2.0, -3.0, f32::MAX, f32::INFINITY, f32::NEG_INFINITY, f32::NAN] {
        let values = vec![Single { bits: 0 }, Single { bits: bad.to_bits() }];
        assert!(Cosines::new(values).is_none());
    }
    assert_eq!(Cosines::new(Vec::new()).unwrap().len(), 0);
}

#[test]
fn a_second_move_starts_where_the_first_ended() {
    let c = cosines(FIVE_STEPS);
    let first = [250u16, 300, 300, 350, 550];
    let second = [480u16, 200, 300, 360, 338];
    let channels = [Channel::C1, Channel::C2, Channel::C3, Channel::C4, Channel::C5];
    for before in [[0u16; 5], [4095; 5], [450, 300, 300, 300, 300]] {
        let mut at = before;
        move_5axis_organic(first, &mut at, &c);
        assert_eq!(at, first);
        let plan = move_5axis_organic(second, &mut at, &c);
        assert_eq!(at, second);
        assert_eq!(plan, expected_glide(&channels, &first, &second, 150, 15));
        for step in plan {
            if let Step::Write { channel, off, .. } = step {
                let k = channels.iter().position(|x| *x == channel).unwrap();
                assert!(first[k].min(second[k]) <= off && off <= first[k].max(second[k]));
            }
        }
    }
}

#[test]
fn the_shoulder_holds_still_when_sent_again() {
    let c = cosines(SHOULDER_STEPS);
    for target in [0u16, 200, 333, 420, 4095] {
        let mut p = 300u16;
        move_shoulder_safe(&mut p, target, &c);
        let q = p;
        let plan = move_shoulder_safe(&mut p, target, &c);
        assert_eq!(p, q);
        assert_eq!(plan.len(), 240);
        for i in 0..120usize {
            assert_eq!(plan[2 * i], write(Channel::C1, q));
            assert_eq!(plan[2 * i + 1], Step::Pause { ms: 15 });
        }
    }
}
