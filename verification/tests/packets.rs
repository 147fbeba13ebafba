use robot_arm::cosines::Cosines;
use robot_arm::glide::{glide_phases, POWER_STEPS};
use robot_arm::packet::{go_home, handle_packet, motor_channel, packet_pulse};
use robot_arm::single::Single;
use robot_arm::step::{Channel, Message, Step};

fn cosines() -> Cosines {
    let mut all: Vec<Single> = Vec::new();
    for p in glide_phases(POWER_STEPS) {
        all.push(Single { bits: f32::from_bits(p.bits).cos().to_bits() });
    }
    Cosines::new(all).unwrap()
}

fn received(motor_id: u8, x_angle: u8, y_angle: u8, checksum: u8) -> Step {
    Step::Say(Message::Received { motor_id, x_angle, y_angle, checksum })
}

#[test]
fn foreign_packets_do_nothing() {
    let c = cosines();
    let mut at = [300u16; 4];
    for packet in [
        vec![],
        vec![0xAA],
        vec![0xAA, 0xFF, 0, 0],
        vec![0xAB, 0xFF, 0, 0, 0],
        vec![0, 0xAA, 1, 2, 3, 4],
    ] {
        assert_eq!(handle_packet(&packet, &mut at, &c), Vec::new());
        assert_eq!(at, [300; 4]);
    }
}

#[test]
fn base_goes_by_the_horizontal_angle() {
    let c = cosines();
    let mut at = [300u16; 4];
    assert_eq!(
        handle_packet(&[0xAA, 0, 90, 10, 7], &mut at, &c),
        vec![
            received(0, 90, 10, 7),
            Step::Say(Message::PulseChosen { count: 375 }),
            Step::TryWrite { channel: Channel::C0, on: 0, off: 375 },
            Step::Pause { ms: 10 },
        ]
    );
    assert_eq!(at, [300; 4]);
}

#[test]
fn elbow_goes_by_the_vertical_angle() {
    let c = cosines();
    let mut at = [300u16; 4];
    assert_eq!(
        handle_packet(&[0xAA, 2, 90, 10, 7, 99], &mut at, &c),
        vec![
            received(2, 90, 10, 7),
            Step::Say(Message::AngleLimited { angle: 10 }),
            Step::Say(Message::PulseRaw { pulse: 200 }),
            Step::Say(Message::PulseLimited { pulse: 200 }),
            Step::Say(Message::PulseChosen { count: 200 }),
            Step::TryWrite { channel: Channel::C2, on: 0, off: 200 },
            Step::Pause { ms: 10 },
        ]
    );
    let low = handle_packet(&[0xAA, 3, 90, 2, 7], &mut at, &c);
    assert_eq!(low[4], Step::Say(Message::PulseLow { pulse: 160 }));
    assert_eq!(low[6], Step::TryWrite { channel: Channel::C3, on: 0, off: 160 });
}

#[test]
fn unknown_motors_are_reported() {
    let c = cosines();
    let mut at = [300u16; 4];
    assert_eq!(
        handle_packet(&[0xAA, 6, 255, 0, 0], &mut at, &c),
        vec![
            received(6, 255, 0, 0),
            Step::Say(Message::PulseChosen { count: 787 }),
            Step::Say(Message::UnknownMotor { motor_id: 6 }),
        ]
    );
}

#[test]
fn the_checksum_is_not_tested() {
    let c = cosines();
    let mut at = [300u16; 4];
    let one = handle_packet(&[0xAA, 5, 33, 44, 1], &mut at, &c);
    let two = handle_packet(&[0xAA, 5, 33, 44, 2], &mut at, &c);
    assert_eq!(one[0], received(5, 33, 44, 1));
    assert_eq!(two[0], received(5, 33, 44, 2));
    assert_eq!(one[1..].to_vec(), two[1..].to_vec());
    assert_eq!(one[2], Step::TryWrite { channel: Channel::C5, on: 0, off: 232 });
}

#[test]
fn outputs_of_the_motors() {
    assert_eq!(motor_channel(0), Some(Channel::C0));
    assert_eq!(motor_channel(1), Some(Channel::C1));
    assert_eq!(motor_channel(2), Some(Channel::C2));
    assert_eq!(motor_channel(3), Some(Channel::C3));
    assert_eq!(motor_channel(4), Some(Channel::C4));
    assert_eq!(motor_channel(5), Some(Channel::C5));
    assert_eq!(motor_channel(6), None);
    assert_eq!(motor_channel(255), None);
}

#[test]
fn pulses_of_the_motors() {
    for a in 0..=255u8 {
        let wide = (150.0 + (a as f32 / 180.0) * 450.0) as u16;
        assert_eq!(packet_pulse(0, a, 0), wide);
        assert_eq!(packet_pulse(4, a, 0), wide);
        assert_eq!(packet_pulse(200, a, 0), wide);
        assert_eq!(packet_pulse(1, 0, a), 150 + 5 * (a.min(89) as u16));
    }
}

#[test]
fn home_is_reached_joint_by_joint() {
    let c = cosines();
    let mut at = [300u16, 310, 320, 330];
    let plan = handle_packet(&[0xAA, 0xFF, 1, 2, 3], &mut at, &c);
    assert_eq!(at, [375, 482, 530, 330]);
    assert_eq!(plan.len(), 1 + 3 * 201);
    assert_eq!(plan[0], received(0xFF, 1, 2, 3));
    let legs = [
        (Channel::C1, 300u16, 375u16),
        (Channel::C2, 310, 482),
        (Channel::C0, 320, 530),
    ];
    for k in 0..3usize {
        let (channel, from, to) = legs[k];
        for i in 1..=100usize {
            let t = i as f32 / 100.0;
            let ease = (1.0 - (t * std::f32::consts::PI).cos()) / 2.0;
            let off = (from as f32 + (to as f32 - from as f32) * ease) as u16;
            let place = 1 + 201 * k + 2 * (i - 1);
            assert_eq!(plan[place], Step::Write { channel, on: 0, off });
            assert_eq!(plan[place + 1], Step::Pause { ms: 12 });
        }
        assert_eq!(plan[201 * (k + 1)], Step::Pause { ms: 50 });
    }
}

#[test]
fn home_again_stays() {
    let c = cosines();
    let mut at = [300u16; 4];
    go_home(&mut at, &c);
    for step in go_home(&mut at, &c) {
        match step {
            Step::Write { channel, off, .. } => match channel {
                Channel::C1 => assert_eq!(off, 375),
                Channel::C2 => assert_eq!(off, 482),
                Channel::C0 => assert_eq!(off, 530),
                _ => panic!("another joint moved"),
            },
            Step::Pause { .. } => {}
            _ => panic!("something else happened"),
        }
    }
    assert_eq!(at, [375, 482, 530, 300]);
}

#[test]
fn joints_go_straight_home() {
    let c = cosines();
    let starts = [150u16, 600, 300, 300];
    let mut at = starts;
    let plan = handle_packet(&[0xAA, 0xFF, 0, 0, 0], &mut at, &c);
    let homes = [(Channel::C1, 375u16), (Channel::C2, 482), (Channel::C0, 530)];
    for i in 0..3usize {
        let mut before = starts[i];
        for step in plan.iter() {
            if let Step::Write { channel, off, .. } = step {
                if *channel == homes[i].0 {
                    let up = starts[i] <= homes[i].1;
                    assert!(if up { before <= *off } else { *off <= before });
                    before = *off;
                }
            }
        }
        assert_eq!(before, homes[i].1);
    }
}
