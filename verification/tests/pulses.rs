use std::marker::PhantomData;

use robot_arm::arm::{axis_phases, RobotArm3Axis, RobotArmController};
use robot_arm::cosines::Cosines;
use robot_arm::pulse::{angle_to_pulse, calculate_pulse, pulse_report, SERVO_MAX, SERVO_MIN};
use robot_arm::single::Single;
use robot_arm::step::{Channel, Message, Step};

fn of(x: f32) -> Single {
    Single { bits: x.to_bits() }
}

fn value(s: Single) -> f32 {
    f32::from_bits(s.bits)
}

fn axis_cosines() -> Cosines {
    let mut all: Vec<Single> = Vec::new();
    for p in axis_phases() {
        all.push(of(value(p).cos()));
    }
    Cosines::new(all).unwrap()
}

#[test]
fn angles_become_pulses() {
    assert_eq!(angle_to_pulse(of(0.0)), 150);
    assert_eq!(angle_to_pulse(of(90.0)), 375);
    assert_eq!(angle_to_pulse(of(133.0)), 482);
    assert_eq!(angle_to_pulse(of(152.0)), 530);
    assert_eq!(angle_to_pulse(of(180.0)), 600);
    assert_eq!(angle_to_pulse(of(255.0)), 787);
    assert_eq!(angle_to_pulse(of(-60.1)), 0);
    assert_eq!(angle_to_pulse(of(-100.0)), 0);
    assert_eq!(angle_to_pulse(of(1.0e9)), 65535);
    assert_eq!(angle_to_pulse(of(f32::NAN)), 0);
}

#[test]
fn fractions_of_degrees_follow_the_formula() {
    for k in 0..18000u32 {
        let angle = k as f32 / 100.0;
        let expected = (150.0 + (angle / 180.0) * 450.0) as u16;
        let pulse = angle_to_pulse(of(angle));
        assert_eq!(pulse, expected);
        assert!(SERVO_MIN <= pulse && pulse <= SERVO_MAX);
    }
}

#[test]
fn whole_degrees_are_two_and_a_half_each() {
    for degrees in 0..256u32 {
        assert_eq!(angle_to_pulse(of(degrees as f32)) as u32, 150 + 5 * degrees / 2);
    }
}

#[test]
fn vertical_pulses_are_limited() {
    assert_eq!(calculate_pulse(0), 150);
    assert_eq!(calculate_pulse(1), 155);
    assert_eq!(calculate_pulse(57), 435);
    assert_eq!(calculate_pulse(89), 595);
    assert_eq!(calculate_pulse(90), 595);
    assert_eq!(calculate_pulse(u32::MAX), 595);
    for y in 0..300u32 {
        let scaled = (y as f32).clamp(0.0, 89.0);
        let pulse = (150.0 + scaled * 5.0).clamp(150.0, 650.0);
        assert_eq!(calculate_pulse(y), pulse as u32);
    }
}

#[test]
fn low_pulses_are_reported() {
    assert_eq!(
        pulse_report(5),
        vec![
            Message::AngleLimited { angle: 5 },
            Message::PulseRaw { pulse: 175 },
            Message::PulseLimited { pulse: 175 },
            Message::PulseLow { pulse: 175 },
        ]
    );
    assert_eq!(
        pulse_report(6),
        vec![
            Message::AngleLimited { angle: 6 },
            Message::PulseRaw { pulse: 180 },
            Message::PulseLimited { pulse: 180 },
        ]
    );
    assert_eq!(
        pulse_report(200),
        vec![
            Message::AngleLimited { angle: 89 },
            Message::PulseRaw { pulse: 595 },
            Message::PulseLimited { pulse: 595 },
        ]
    );
}

#[test]
fn controller_starts_in_the_middle() {
    let c = RobotArmController::new();
    assert_eq!(c.master_id, 0);
    assert!(!c.is_locked);
    for a in c.angles.iter() {
        assert_eq!(value(*a), 90.0);
    }
}

#[test]
fn traits_of_the_motors() {
    let mut c = RobotArmController::new();
    let expected: [(f32, f32); 7] =
        [(1.0, 1.2), (-1.0, 2.5), (1.0, 1.2), (1.0, 1.8), (-1.0, 1.5), (1.0, 1.2), (1.0, 1.2)];
    for id in 0..7usize {
        c.master_id = id;
        let (dir, weight) = c.get_motor_traits();
        assert_eq!((value(dir), value(weight)), expected[id]);
    }
}

#[test]
fn jogging_moves_the_selected_joint_only() {
    for id in 0..6usize {
        for delta in [0.0f32, 0.5, -0.5, 3.3, -7.7, 1000.0, -1000.0, f32::INFINITY] {
            let mut c = RobotArmController::new();
            c.master_id = id;
            let (dir, weight) = c.get_motor_traits();
            c.apply_move(of(delta));
            let power = if delta > 0.0 { value(weight) } else { 0.7 };
            let expected = (90.0 + delta * value(dir) * power).clamp(0.0, 180.0);
            assert_eq!(c.angles[id].bits, expected.to_bits());
            for other in 0..6usize {
                if other != id {
                    assert_eq!(value(c.angles[other]), 90.0);
                }
            }
            assert_eq!(c.master_id, id);
            assert!(!c.is_locked);
        }
    }
}

#[test]
fn lifting_goes_by_weight_and_lowering_does_not() {
    let mut c = RobotArmController::new();
    c.master_id = 1;
    c.apply_move(of(2.0));
    assert_eq!(value(c.angles[1]), 85.0);
    c.apply_move(of(-10.0));
    assert_eq!(value(c.angles[1]), 92.0);
    c.apply_move(of(100.0));
    assert_eq!(value(c.angles[1]), 0.0);
}

#[test]
fn three_joints_move_in_degrees() {
    let all = axis_cosines();
    let mut arm: RobotArm3Axis<u8> =
        RobotArm3Axis { current_angles: [of(90.0), of(90.0), of(90.0)], _marker: PhantomData };
    let target = [45.0f32, 120.0, 230.0];
    let plan = arm.move_to_target([of(45.0), of(120.0), of(230.0)], &all);
    assert_eq!(plan.len(), 61 * 4);
    let channels = [Channel::C0, Channel::C1, Channel::C2];
    for step in 0..=60usize {
        let t = step as f32 / 60.0;
        let s = (1.0 - (t * std::f32::consts::PI).cos()) / 2.0;
        for i in 0..3usize {
            let angle = (90.0 + (target[i] - 90.0) * s).clamp(0.0, 180.0);
            let off = (150.0 + (angle / 180.0) * 450.0) as u16;
            assert_eq!(plan[4 * step + i], Step::Write { channel: channels[i], on: 0, off });
        }
        assert_eq!(plan[4 * step + 3], Step::Pause { ms: 20 });
    }
    assert_eq!(plan[240], Step::Write { channel: Channel::C0, on: 0, off: 262 });
    assert_eq!(plan[241], Step::Write { channel: Channel::C1, on: 0, off: 450 });
    assert_eq!(plan[242], Step::Write { channel: Channel::C2, on: 0, off: 600 });
    assert_eq!(value(arm.current_angles[2]), 230.0);
    assert_eq!(arm.angle_to_pulse(of(180.0)), 600);
}

#[test]
fn moves_in_degrees_begin_at_the_start() {
    let all = axis_phases();
    assert_eq!(all.len(), 61);
    assert_eq!(all[0], of(0.0));
    assert_eq!(all[60], of(std::f32::consts::PI));
    for step in 0..=60usize {
        let t = step as f32 / 60.0;
        assert_eq!(all[step], of(t * std::f32::consts::PI));
    }
}

#[test]
fn greater_angles_never_give_shorter_pulses() {
    let mut before = 0u16;
    for angle in [
        f32::NEG_INFINITY,
        f32::MIN,
        -1.0e9,
        -60.1,
        -60.0,
        -59.5,
        -1.0e-40,
        -0.0,
        0.0,
        1.0e-45,
        1.0e-40,
        0.3,
        89.9,
        180.0,
        180.5,
        26154.0,
        1.0e9,
        f32::MAX,
        f32::INFINITY,
    ] {
        let pulse = angle_to_pulse(of(angle));
        assert_eq!(pulse, (150.0 + (angle / 180.0) * 450.0) as u16);
        assert!(before <= pulse);
        before = pulse;
    }
    assert_eq!(before, u16::MAX);
}

#[test]
fn joints_in_degrees_never_turn_back() {
    let starts = [90.0f32, -20.0, 300.0];
    let targets = [45.5f32, 200.0, 0.25];
    let mut arm: RobotArm3Axis<u8> =
        RobotArm3Axis { current_angles: starts.map(of), _marker: PhantomData };
    let plan = arm.move_to_target(targets.map(of), &axis_cosines());
    let off = |k: usize| match plan[k] {
        Step::Write { off, .. } => off,
        _ => panic!("not a write"),
    };
    for i in 0..3usize {
        for step in 1..=60usize {
            let (before, now) = (off(4 * step - 4 + i), off(4 * step + i));
            assert!(if starts[i] <= targets[i] { before <= now } else { now <= before });
        }
    }
}

#[test]
fn targets_beyond_the_limits_end_at_the_limits() {
    let c = axis_cosines();
    let starts = [0.0f32, 0.1, 90.0, 123.456, 179.99, 180.0, 270.0, -30.0, 400.5];
    let targets = [(-30.0f32, 150u16), (-0.001, 150), (270.0, 600), (180.0, 600), (1.0e30, 600)];
    for start in starts {
        for (target, off) in targets {
            let mut arm: RobotArm3Axis<u8> =
                RobotArm3Axis { current_angles: [of(start); 3], _marker: PhantomData };
            let plan = arm.move_to_target([of(target); 3], &c);
            assert_eq!(plan[240], Step::Write { channel: Channel::C0, on: 0, off });
            assert_eq!(plan[241], Step::Write { channel: Channel::C1, on: 0, off });
            assert_eq!(plan[242], Step::Write { channel: Channel::C2, on: 0, off });
        }
    }
    let mut far: RobotArm3Axis<u8> =
        RobotArm3Axis { current_angles: [of(1.0e30); 3], _marker: PhantomData };
    let plan = far.move_to_target([of(270.0), of(-30.0), of(0.0)], &c);
    assert_eq!(plan[240], Step::Write { channel: Channel::C0, on: 0, off: 150 });
    assert_eq!(plan[241], Step::Write { channel: Channel::C1, on: 0, off: 150 });
    assert_eq!(plan[242], Step::Write { channel: Channel::C2, on: 0, off: 150 });
}

#[test]
fn jogging_comes_back_into_the_range() {
    for start in [-1.0e9f32, -5.0, 90.0, 185.0, 3.0e38] {
        for delta in [f32::NEG_INFINITY, -1.0, -0.0, 0.0, 2.0, f32::MAX, f32::INFINITY] {
            for id in 0..6usize {
                let mut c = RobotArmController::new();
                c.master_id = id;
                c.angles[id] = of(start);
                c.apply_move(of(delta));
                assert!(0.0 <= value(c.angles[id]) && value(c.angles[id]) <= 180.0);
            }
        }
    }
}
