use robot_arm::cosines::Cosines;
use robot_arm::glide::{
    glide_phases, move_4axis_organic, move_5axis_organic, FIVE_STEPS, FOUR_STEPS,
};
use robot_arm::routines::{
    run_apple_spiral_test, run_c5_solo_performance, run_cool_spiral_sequence,
    run_fixed_pillar_sequence, run_full_apple_sequence, run_perfect_stable_sequence,
    run_spiral_peeling_sequence, run_vertical_magic_sequence,
};
use robot_arm::single::Single;
use robot_arm::step::{Channel, Message, Step};

fn cosines(steps: u32) -> Cosines {
    let mut all: Vec<Single> = Vec::new();
    for p in glide_phases(steps) {
        all.push(Single { bits: f32::from_bits(p.bits).cos().to_bits() });
    }
    Cosines::new(all).unwrap()
}

struct Four {
    plan: Vec<Step>,
    at: [u16; 4],
    c: Cosines,
}

impl Four {
    fn new(at: [u16; 4]) -> Four {
        Four { plan: Vec::new(), at, c: cosines(FOUR_STEPS) }
    }

    fn say(&mut self, m: Message) {
        self.plan.push(Step::Say(m));
    }

    fn go(&mut self, pose: [u16; 4], ms: u32) {
        self.plan.extend(move_4axis_organic(pose, &mut self.at, &self.c));
        if ms > 0 {
            self.plan.push(Step::Pause { ms });
        }
    }
}

struct Five {
    plan: Vec<Step>,
    at: [u16; 5],
    c: Cosines,
}

impl Five {
    fn new(at: [u16; 5]) -> Five {
        Five { plan: Vec::new(), at, c: cosines(FIVE_STEPS) }
    }

    fn say(&mut self, m: Message) {
        self.plan.push(Step::Say(m));
    }

    fn go(&mut self, pose: [u16; 5], ms: u32) {
        self.plan.extend(move_5axis_organic(pose, &mut self.at, &self.c));
        if ms > 0 {
            self.plan.push(Step::Pause { ms });
        }
    }
}

const START: [u16; 5] = [450, 300, 300, 300, 300];

/// What is written to `channel` after the first `skip` writes to it.
fn written(plan: &Vec<Step>, channel: Channel, skip: usize) -> Vec<u16> {
    let mut all: Vec<u16> = Vec::new();
    for step in plan.iter() {
        if let Step::Write { channel: c, off, .. } = step {
            if *c == channel {
                all.push(*off);
            }
        }
    }
    all[skip..].to_vec()
}

fn in_servo_range(plan: &Vec<Step>) -> bool {
    plan.iter().all(|s| match s {
        Step::Write { on, off, .. } => *on == 0 && 150 <= *off && *off <= 600,
        Step::TryWrite { .. } => false,
        _ => true,
    })
}

#[test]
fn spiral_practice() {
    let mut e = Four::new([450, 300, 300, 300]);
    e.say(Message::SpiralStart);
    let path = [
        [450u16, 400, 300, 300],
        [460, 420, 310, 350],
        [470, 440, 320, 400],
        [480, 460, 330, 450],
        [450, 300, 300, 300],
    ];
    for i in 0..5usize {
        let p = path[i];
        e.say(Message::SpiralStage { stage: i as u16 + 1, c1: p[0], c2: p[1], c3: p[2], c4: p[3] });
        e.go(p, 200);
    }
    e.say(Message::SpiralDone);
    let mut at = [450u16, 300, 300, 300];
    let plan = run_apple_spiral_test(&mut at, &cosines(FOUR_STEPS));
    assert_eq!(plan, e.plan);
    assert_eq!(at, [450, 300, 300, 300]);
    assert!(in_servo_range(&plan));
}

#[test]
fn whole_apple() {
    let mut e = Four::new([450, 300, 300, 300]);
    e.say(Message::AppleStart);
    e.say(Message::AppleStage { stage: 1 });
    e.go([420, 300, 300, 300], 1000);
    e.say(Message::AppleStage { stage: 2 });
    e.go([450, 400, 300, 420], 1500);
    e.say(Message::AppleStage { stage: 3 });
    e.go([450, 400, 300, 250], 2000);
    e.say(Message::AppleStage { stage: 4 });
    for p in [[460u16, 420, 310, 250], [470, 440, 320, 250], [480, 460, 330, 250]] {
        e.go(p, 300);
    }
    e.say(Message::AppleStage { stage: 5 });
    e.go([420, 300, 300, 300], 0);
    e.say(Message::AppleDone);
    let mut at = [450u16, 300, 300, 300];
    let plan = run_full_apple_sequence(&mut at, &cosines(FOUR_STEPS));
    assert_eq!(plan, e.plan);
    assert_eq!(at, [420, 300, 300, 300]);
    assert!(in_servo_range(&plan));
}

#[test]
fn upright() {
    let mut e = Five::new(START);
    e.say(Message::UprightStart);
    e.go([480, 250, 300, 300, 300], 2000);
    e.say(Message::UprightTilt);
    e.go([480, 350, 200, 300, 450], 1000);
    for pos in (300u16..=450).step_by(50) {
        e.say(Message::UprightTurn { c4: pos, c5: 450 - pos / 10 });
        e.go([480, 380, 200, pos, 450 - pos / 10], 500);
    }
    e.say(Message::UprightHome);
    e.go([480, 250, 300, 300, 300], 0);
    let mut at = START;
    let plan = run_vertical_magic_sequence(&mut at, &cosines(FIVE_STEPS));
    assert_eq!(plan, e.plan);
    assert_eq!(at, [480, 250, 300, 300, 300]);
    assert!(written(&plan, Channel::C1, 150).iter().all(|x| *x == 480));
    assert!(in_servo_range(&plan));
}

#[test]
fn pillar() {
    let mut e = Five::new(START);
    e.say(Message::PillarStart);
    e.go([480, 200, 300, 300, 300], 1500);
    e.say(Message::PillarTilt);
    e.go([480, 200, 300, 300, 450], 1000);
    for pos in (250u16..=450).step_by(40) {
        let c5 = 450 - (pos / 4);
        e.say(Message::PillarTurn { c4: pos, c5 });
        e.go([480, 200, 300, pos, c5], 400);
    }
    e.say(Message::PillarDone);
    let mut at = START;
    let plan = run_fixed_pillar_sequence(&mut at, &cosines(FIVE_STEPS));
    assert_eq!(plan, e.plan);
    assert_eq!(at, [480, 200, 300, 450, 338]);
    assert!(written(&plan, Channel::C1, 150).iter().all(|x| *x == 480));
    assert!(written(&plan, Channel::C2, 150).iter().all(|x| *x == 200));
    assert!(in_servo_range(&plan));
}

#[test]
fn stable() {
    let mut e = Five::new(START);
    e.say(Message::StableStart);
    e.go([250, 300, 300, 300, 300], 1500);
    e.say(Message::StableTilt);
    e.go([250, 300, 300, 300, 500], 1000);
    for pos in (200u16..=500).step_by(60) {
        let c5 = 500 - (pos / 2);
        e.say(Message::StableTurn { c4: pos, c5 });
        e.go([250, 300, 300, pos, c5], 300);
    }
    e.go([250, 300, 300, 300, 300], 0);
    e.say(Message::StableDone);
    let mut at = START;
    let plan = run_perfect_stable_sequence(&mut at, &cosines(FIVE_STEPS));
    assert_eq!(plan, e.plan);
    assert_eq!(at, [250, 300, 300, 300, 300]);
    assert!(written(&plan, Channel::C1, 150).iter().all(|x| *x == 250));
    assert!(in_servo_range(&plan));
}

#[test]
fn peeling() {
    let mut e = Five::new(START);
    e.say(Message::PeelStart);
    e.go([250, 250, 200, 250, 480], 1000);
    for i in 0..6u16 {
        let c2 = 250 + (i * 20);
        let c4 = 250 + (i * 40);
        let c5 = 480 - (i * 25);
        e.say(Message::PeelTurn { c2, c4, c5 });
        e.go([250, c2, 200, c4, c5], 400);
    }
    e.say(Message::PeelDone);
    let mut at = START;
    let plan = run_spiral_peeling_sequence(&mut at, &cosines(FIVE_STEPS));
    assert_eq!(plan, e.plan);
    assert_eq!(at, [250, 350, 200, 450, 355]);
    assert!(written(&plan, Channel::C1, 150).iter().all(|x| *x == 250));
    assert!(in_servo_range(&plan));
}

#[test]
fn cooler_peeling() {
    let mut e = Five::new(START);
    e.say(Message::CoolStart);
    e.go([250, 250, 200, 250, 480], 1000);
    for step in 1..=8u16 {
        e.go([250, 250 + (step * 15), 200, 250 + (step * 30), 480 - (step * 20)], 550);
    }
    e.say(Message::CoolDone);
    e.go([250, 250, 300, 300, 300], 0);
    let mut at = START;
    let plan = run_cool_spiral_sequence(&mut at, &cosines(FIVE_STEPS));
    assert_eq!(plan, e.plan);
    assert_eq!(at, [250, 250, 300, 300, 300]);
    assert!(written(&plan, Channel::C1, 150).iter().all(|x| *x == 250));
    assert!(in_servo_range(&plan));
}

#[test]
fn solo_of_the_blade() {
    let mut e = Five::new(START);
    e.say(Message::SoloStart);
    e.go([250, 300, 300, 350, 300], 1000);
    for c5 in (300u16..=550).step_by(25) {
        e.say(Message::SoloForth { c5 });
        e.go([250, 300, 300, 350, c5], 200);
    }
    for c5 in (300u16..=550).rev().step_by(25) {
        e.say(Message::SoloBack { c5 });
        e.go([250, 300, 300, 350, c5], 200);
    }
    e.say(Message::SoloDone);
    let mut at = START;
    let plan = run_c5_solo_performance(&mut at, &cosines(FIVE_STEPS));
    assert_eq!(plan, e.plan);
    assert_eq!(at, [250, 300, 300, 350, 300]);
    assert!(written(&plan, Channel::C4, 150).iter().all(|x| *x == 350));
    assert!(in_servo_range(&plan));
}

fn rises(all: &[u16]) -> bool {
    all.windows(2).all(|w| w[0] <= w[1])
}

fn falls(all: &[u16]) -> bool {
    all.windows(2).all(|w| w[0] >= w[1])
}

#[test]
fn the_grip_on_the_apple_is_kept() {
    let n = FOUR_STEPS as usize;
    let mut at = [310u16, 555, 160, 590];
    let plan = run_full_apple_sequence(&mut at, &cosines(FOUR_STEPS));
    let grip = written(&plan, Channel::C4, 3 * n);
    assert_eq!(grip.len(), 4 * n);
    assert!(grip[..3 * n].iter().all(|off| *off == 250));
    assert!(grip[3 * n..].iter().any(|off| *off != 250));
    for (channel, last) in [(Channel::C1, 480u16), (Channel::C2, 460), (Channel::C3, 330)] {
        let all = written(&plan, channel, 3 * n);
        assert!(rises(&all[..3 * n]));
        assert_eq!(all[3 * n - 1], last);
    }
}

#[test]
fn spiral_practice_goes_down_without_turning_back() {
    let n = FOUR_STEPS as usize;
    let mut at = [600u16, 150, 600, 150];
    let plan = run_apple_spiral_test(&mut at, &cosines(FOUR_STEPS));
    for channel in [Channel::C1, Channel::C2, Channel::C3, Channel::C4] {
        assert!(rises(&written(&plan, channel, n)[..3 * n]));
    }
}

#[test]
fn peeling_never_turns_back() {
    let n = FIVE_STEPS as usize;
    let mut at = [600u16, 150, 600, 150, 200];
    let plan = run_spiral_peeling_sequence(&mut at, &cosines(FIVE_STEPS));
    assert!(written(&plan, Channel::C1, n).iter().all(|off| *off == 250));
    assert!(rises(&written(&plan, Channel::C2, n)));
    assert!(written(&plan, Channel::C3, n).iter().all(|off| *off == 200));
    assert!(rises(&written(&plan, Channel::C4, n)));
    let blade = written(&plan, Channel::C5, n);
    assert!(falls(&blade));
    assert_eq!(blade[blade.len() - 1], 355);
}

#[test]
fn cooler_peeling_never_turns_back() {
    let n = FIVE_STEPS as usize;
    let mut at = START;
    let plan = run_cool_spiral_sequence(&mut at, &cosines(FIVE_STEPS));
    assert!(rises(&written(&plan, Channel::C2, n)[..8 * n]));
    assert!(rises(&written(&plan, Channel::C4, n)[..8 * n]));
    assert!(falls(&written(&plan, Channel::C5, n)[..8 * n]));
}

#[test]
fn turns_of_the_wrist_go_one_way() {
    let n = FIVE_STEPS as usize;
    let c = cosines(FIVE_STEPS);
    let mut at = START;
    let plan = run_vertical_magic_sequence(&mut at, &c);
    assert!(rises(&written(&plan, Channel::C4, 2 * n)[..4 * n]));
    assert!(falls(&written(&plan, Channel::C5, 2 * n)[..4 * n]));
    let mut at = START;
    let plan = run_fixed_pillar_sequence(&mut at, &c);
    assert!(rises(&written(&plan, Channel::C4, 3 * n)[..5 * n]));
    assert!(falls(&written(&plan, Channel::C5, 3 * n)[..5 * n]));
    let mut at = START;
    let plan = run_perfect_stable_sequence(&mut at, &c);
    assert!(rises(&written(&plan, Channel::C4, 3 * n)[..5 * n]));
    assert!(falls(&written(&plan, Channel::C5, 3 * n)[..5 * n]));
}

#[test]
fn the_blade_rises_and_then_falls() {
    let n = FIVE_STEPS as usize;
    let mut at = START;
    let plan = run_c5_solo_performance(&mut at, &cosines(FIVE_STEPS));
    let blade = written(&plan, Channel::C5, n);
    assert_eq!(blade.len(), 22 * n);
    assert!(rises(&blade[..11 * n]));
    assert_eq!(blade[11 * n - 1], 550);
    assert!(falls(&blade[11 * n..]));
    assert_eq!(blade[22 * n - 1], 300);
}
