//! The demonstration routines of the arm.

use vstd::prelude::*;

use crate::cosines::Cosines;
use crate::glide::{move_4axis_organic, move_5axis_organic, Heading};
use crate::script::Act;
use crate::single::Single;
use crate::step::{Message, Step};

verus! {

/// A plan in the making.
struct Tape<'a, const N: usize> {
    steps: Vec<Step>,
    pose: [u16; N],
    cosines: &'a Cosines,
    acts: Ghost<Seq<Act>>,
    origin: Ghost<Seq<u16>>,
}

impl<'a, const N: usize> Tape<'a, N> {
    /// The plan is that of the acts so far.
    spec fn inv(self) -> bool {
        &&& self.steps@ == crate::script::play(self.acts@, self.origin@, self.cosines@)
        &&& self.pose@ == crate::script::pose_after(self.acts@, self.origin@)
    }

    /// One more act was recorded.
    spec fn extends(self, before: Self, act: Act) -> bool {
        &&& self.inv()
        &&& self.acts@ == before.acts@.push(act)
        &&& self.origin@ == before.origin@
        &&& self.cosines == before.cosines
    }

    fn begin(pose: [u16; N], cosines: &'a Cosines) -> (t: Self)
        ensures
            t.inv(),
            t.acts@ == Seq::<Act>::empty(),
            t.origin@ == pose@,
            t.cosines == cosines,
    {
        Tape {
            steps: Vec::new(),
            pose,
            cosines,
            acts: Ghost(Seq::empty()),
            origin: Ghost(pose@),
        }
    }

    fn say(&mut self, message: Message)
        requires
            old(self).inv(),
        ensures
            final(self).extends(*old(self), Act::Say(message)),
            final(self).pose == old(self).pose,
    {
        let ghost before = self.acts@;
        self.steps.push(Step::Say(message));
        self.acts = Ghost(self.acts@.push(Act::Say(message)));
        assert(self.steps@ =~= old(self).steps@ + seq![Step::Say(message)]);
        assert(self.acts@.drop_last() =~= before);
    }

    fn rest(&mut self, ms: u32)
        requires
            old(self).inv(),
        ensures
            final(self).extends(*old(self), Act::Rest(ms)),
            final(self).pose == old(self).pose,
    {
        let ghost before = self.acts@;
        self.steps.push(Step::Pause { ms });
        self.acts = Ghost(self.acts@.push(Act::Rest(ms)));
        assert(self.steps@ =~= old(self).steps@ + seq![Step::Pause { ms }]);
        assert(self.acts@.drop_last() =~= before);
    }
}

impl<'a> Tape<'a, 4> {
    fn go(&mut self, c1: u16, c2: u16, c3: u16, c4: u16)
        requires
            old(self).inv(),
            old(self).cosines@.len() == crate::glide::FOUR_STEPS,
        ensures
            final(self).extends(*old(self), Act::Go(seq![c1, c2, c3, c4])),
            final(self).pose@ == seq![c1, c2, c3, c4],
    {
        let ghost before = self.acts@;
        let pose: [u16; 4] = [c1, c2, c3, c4];
        assert(pose@ =~= seq![c1, c2, c3, c4]);
        let mut moves: Vec<Step> = move_4axis_organic(pose, &mut self.pose, self.cosines);
        self.steps.append(&mut moves);
        self.acts = Ghost(self.acts@.push(Act::Go(pose@)));
        assert(self.acts@.drop_last() =~= before);
    }
}

impl<'a> Tape<'a, 5> {
    fn go(&mut self, c1: u16, c2: u16, c3: u16, c4: u16, c5: u16)
        requires
            old(self).inv(),
            old(self).cosines@.len() == crate::glide::FIVE_STEPS,
        ensures
            final(self).extends(*old(self), Act::Go(seq![c1, c2, c3, c4, c5])),
            final(self).pose@ == seq![c1, c2, c3, c4, c5],
    {
        let ghost before = self.acts@;
        let pose: [u16; 5] = [c1, c2, c3, c4, c5];
        assert(pose@ =~= seq![c1, c2, c3, c4, c5]);
        let mut moves: Vec<Step> = move_5axis_organic(pose, &mut self.pose, self.cosines);
        self.steps.append(&mut moves);
        self.acts = Ghost(self.acts@.push(Act::Go(pose@)));
        assert(self.acts@.drop_last() =~= before);
    }
}

/// Practice of the spiral around an apple: five stages.
pub open spec fn spiral_acts() -> Seq<Act> {
    seq![
        Act::Say(Message::SpiralStart),
        Act::Say(Message::SpiralStage { stage: 1, c1: 450, c2: 400, c3: 300, c4: 300 }),
        Act::Go(seq![450, 400, 300, 300]),
        Act::Rest(200),
        Act::Say(Message::SpiralStage { stage: 2, c1: 460, c2: 420, c3: 310, c4: 350 }),
        Act::Go(seq![460, 420, 310, 350]),
        Act::Rest(200),
        Act::Say(Message::SpiralStage { stage: 3, c1: 470, c2: 440, c3: 320, c4: 400 }),
        Act::Go(seq![470, 440, 320, 400]),
        Act::Rest(200),
        Act::Say(Message::SpiralStage { stage: 4, c1: 480, c2: 460, c3: 330, c4: 450 }),
        Act::Go(seq![480, 460, 330, 450]),
        Act::Rest(200),
        Act::Say(Message::SpiralStage { stage: 5, c1: 450, c2: 300, c3: 300, c4: 300 }),
        Act::Go(seq![450, 300, 300, 300]),
        Act::Rest(200),
        Act::Say(Message::SpiralDone),
    ]
}

/// Practises the spiral around an apple.
pub fn run_apple_spiral_test(currents: &mut [u16; 4], cosines: &Cosines) -> (r: Vec<Step>)
    requires
        cosines@.len() == crate::glide::FOUR_STEPS,
    ensures
        r@ == crate::script::play(spiral_acts(), old(currents)@, cosines@),
        final(currents)@ == seq![450u16, 300, 300, 300],
        spiral_bounds(old(currents)@, cosines@),
{
    let spiral_path: [[u16; 4]; 5] = [
        [450, 400, 300, 300],
        [460, 420, 310, 350],
        [470, 440, 320, 400],
        [480, 460, 330, 450],
        [450, 300, 300, 300],
    ];
    let mut tape: Tape<4> = Tape::begin(*currents, cosines);
    tape.say(Message::SpiralStart);
    let mut i: usize = 0;
    while i < 5
        invariant
            i <= 5,
            tape.inv(),
            tape.origin@ == old(currents)@,
            tape.cosines == cosines,
            cosines@.len() == crate::glide::FOUR_STEPS,
            spiral_path@[0]@ == seq![450u16, 400, 300, 300],
            spiral_path@[1]@ == seq![460u16, 420, 310, 350],
            spiral_path@[2]@ == seq![470u16, 440, 320, 400],
            spiral_path@[3]@ == seq![480u16, 460, 330, 450],
            spiral_path@[4]@ == seq![450u16, 300, 300, 300],
            tape.acts@ =~= spiral_acts().take(1 + 3 * i),
        decreases 5 - i,
    {
        let target: [u16; 4] = spiral_path[i];
        tape.say(
            Message::SpiralStage {
                stage: i as u16 + 1,
                c1: target[0],
                c2: target[1],
                c3: target[2],
                c4: target[3],
            },
        );
        tape.go(target[0], target[1], target[2], target[3]);
        tape.rest(200);
        i = i + 1;
    }
    tape.say(Message::SpiralDone);
    assert(tape.acts@ =~= spiral_acts());
    proof {
        use_type_invariant(cosines);
        law_spiral(old(currents)@, cosines@);
    }
    *currents = tape.pose;
    tape.steps
}

/// The whole apple routine: make room, approach, grip, peel in three stages, return.
pub open spec fn apple_acts() -> Seq<Act> {
    seq![
        Act::Say(Message::AppleStart),
        Act::Say(Message::AppleStage { stage: 1 }),
        Act::Go(seq![420, 300, 300, 300]),
        Act::Rest(1000),
        Act::Say(Message::AppleStage { stage: 2 }),
        Act::Go(seq![450, 400, 300, 420]),
        Act::Rest(1500),
        Act::Say(Message::AppleStage { stage: 3 }),
        Act::Go(seq![450, 400, 300, 250]),
        Act::Rest(2000),
        Act::Say(Message::AppleStage { stage: 4 }),
        Act::Go(seq![460, 420, 310, 250]),
        Act::Rest(300),
        Act::Go(seq![470, 440, 320, 250]),
        Act::Rest(300),
        Act::Go(seq![480, 460, 330, 250]),
        Act::Rest(300),
        Act::Say(Message::AppleStage { stage: 5 }),
        Act::Go(seq![420, 300, 300, 300]),
        Act::Say(Message::AppleDone),
    ]
}

/// Runs the whole apple routine.
pub fn run_full_apple_sequence(currents: &mut [u16; 4], cosines: &Cosines) -> (r: Vec<Step>)
    requires
        cosines@.len() == crate::glide::FOUR_STEPS,
    ensures
        r@ == crate::script::play(apple_acts(), old(currents)@, cosines@),
        final(currents)@ == seq![420u16, 300, 300, 300],
        apple_bounds(old(currents)@, cosines@),
{
    let mut tape: Tape<4> = Tape::begin(*currents, cosines);
    tape.say(Message::AppleStart);
    tape.say(Message::AppleStage { stage: 1 });
    tape.go(420, 300, 300, 300);
    tape.rest(1000);
    tape.say(Message::AppleStage { stage: 2 });
    tape.go(450, 400, 300, 420);
    tape.rest(1500);
    tape.say(Message::AppleStage { stage: 3 });
    tape.go(450, 400, 300, 250);
    tape.rest(2000);
    tape.say(Message::AppleStage { stage: 4 });
    tape.go(460, 420, 310, 250);
    tape.rest(300);
    tape.go(470, 440, 320, 250);
    tape.rest(300);
    tape.go(480, 460, 330, 250);
    tape.rest(300);
    tape.say(Message::AppleStage { stage: 5 });
    tape.go(420, 300, 300, 300);
    tape.say(Message::AppleDone);
    assert(tape.acts@ =~= apple_acts());
    proof {
        use_type_invariant(cosines);
        law_apple(old(currents)@, cosines@);
    }
    *currents = tape.pose;
    tape.steps
}

/// The upright routine: the shoulder stands, the wrist turns and the blade follows, up to turn
/// `n`.
pub open spec fn upright_turns(n: nat) -> Seq<Act>
    decreases n,
{
    if n == 0 {
        seq![
            Act::Say(Message::UprightStart),
            Act::Go(seq![480, 250, 300, 300, 300]),
            Act::Rest(2000),
            Act::Say(Message::UprightTilt),
            Act::Go(seq![480, 350, 200, 300, 450]),
            Act::Rest(1000),
        ]
    } else {
        let c4 = (300 + 50 * (n - 1)) as u16;
        let c5 = (450 - c4 / 10) as u16;
        upright_turns((n - 1) as nat).push(
            Act::Say(Message::UprightTurn { c4, c5 }),
        ).push(
            Act::Go(seq![480, 380, 200, c4, c5]),
        ).push(
            Act::Rest(500),
        )
    }
}

/// The upright routine: the shoulder stands, the wrist turns and the blade follows.
pub open spec fn upright_acts() -> Seq<Act> {
    upright_turns(4).push(
        Act::Say(Message::UprightHome),
    ).push(
        Act::Go(seq![480, 250, 300, 300, 300]),
    )
}

/// Runs the upright routine.
pub fn run_vertical_magic_sequence(currents: &mut [u16; 5], cosines: &Cosines) -> (r: Vec<Step>)
    requires
        cosines@.len() == crate::glide::FIVE_STEPS,
    ensures
        r@ == crate::script::play(upright_acts(), old(currents)@, cosines@),
        final(currents)@ == seq![480u16, 250, 300, 300, 300],
        upright_bounds(old(currents)@, cosines@),
{
    let mut tape: Tape<5> = Tape::begin(*currents, cosines);
    tape.say(Message::UprightStart);
    tape.go(480, 250, 300, 300, 300);
    tape.rest(2000);
    tape.say(Message::UprightTilt);
    tape.go(480, 350, 200, 300, 450);
    tape.rest(1000);
    let mut c4: u16 = 300;
    let ghost mut n: nat = 0;
    assert(tape.acts@ =~= upright_turns(0));
    while c4 <= 450
        invariant
            n <= 4,
            c4 == 300 + 50 * n,
            tape.inv(),
            tape.origin@ == old(currents)@,
            tape.cosines == cosines,
            cosines@.len() == crate::glide::FIVE_STEPS,
            tape.acts@ == upright_turns(n),
        decreases 4 - n,
    {
        let c5: u16 = 450 - c4 / 10;
        tape.say(Message::UprightTurn { c4, c5 });
        tape.go(480, 380, 200, c4, c5);
        tape.rest(500);
        proof {
            n = n + 1;
        }
        c4 = c4 + 50;
    }
    tape.say(Message::UprightHome);
    tape.go(480, 250, 300, 300, 300);
    assert(tape.acts@ =~= upright_acts());
    proof {
        use_type_invariant(cosines);
        law_upright(old(currents)@, cosines@);
    }
    *currents = tape.pose;
    tape.steps
}

/// The pillar routine: shoulder and elbow stand, the wrist turns and the blade follows, up to turn
/// `n`.
pub open spec fn pillar_turns(n: nat) -> Seq<Act>
    decreases n,
{
    if n == 0 {
        seq![
            Act::Say(Message::PillarStart),
            Act::Go(seq![480, 200, 300, 300, 300]),
            Act::Rest(1500),
            Act::Say(Message::PillarTilt),
            Act::Go(seq![480, 200, 300, 300, 450]),
            Act::Rest(1000),
        ]
    } else {
        let c4 = (250 + 40 * (n - 1)) as u16;
        let c5 = (450 - c4 / 4) as u16;
        pillar_turns((n - 1) as nat).push(
            Act::Say(Message::PillarTurn { c4, c5 }),
        ).push(
            Act::Go(seq![480, 200, 300, c4, c5]),
        ).push(
            Act::Rest(400),
        )
    }
}

/// The pillar routine: shoulder and elbow stand, the wrist turns and the blade follows.
pub open spec fn pillar_acts() -> Seq<Act> {
    pillar_turns(6).push(
        Act::Say(Message::PillarDone),
    )
}

/// Runs the pillar routine.
pub fn run_fixed_pillar_sequence(currents: &mut [u16; 5], cosines: &Cosines) -> (r: Vec<Step>)
    requires
        cosines@.len() == crate::glide::FIVE_STEPS,
    ensures
        r@ == crate::script::play(pillar_acts(), old(currents)@, cosines@),
        final(currents)@ == seq![480u16, 200, 300, 450, 338],
        pillar_bounds(old(currents)@, cosines@),
{
    let mut tape: Tape<5> = Tape::begin(*currents, cosines);
    tape.say(Message::PillarStart);
    tape.go(480, 200, 300, 300, 300);
    tape.rest(1500);
    tape.say(Message::PillarTilt);
    tape.go(480, 200, 300, 300, 450);
    tape.rest(1000);
    let mut c4: u16 = 250;
    let ghost mut n: nat = 0;
    assert(tape.acts@ =~= pillar_turns(0));
    while c4 <= 450
        invariant
            n <= 6,
            c4 == 250 + 40 * n,
            tape.inv(),
            tape.origin@ == old(currents)@,
            tape.cosines == cosines,
            cosines@.len() == crate::glide::FIVE_STEPS,
            tape.acts@ == pillar_turns(n),
            n == 6 ==> tape.pose@ == seq![480u16, 200, 300, 450, 338],
        decreases 6 - n,
    {
        let c5: u16 = 450 - c4 / 4;
        tape.say(Message::PillarTurn { c4, c5 });
        tape.go(480, 200, 300, c4, c5);
        tape.rest(400);
        proof {
            n = n + 1;
        }
        c4 = c4 + 40;
    }
    tape.say(Message::PillarDone);
    assert(tape.acts@ =~= pillar_acts());
    proof {
        use_type_invariant(cosines);
        law_pillar(old(currents)@, cosines@);
    }
    *currents = tape.pose;
    tape.steps
}

/// The stable routine: the shoulder stays low, the wrist turns and the blade follows, up to turn
/// `n`.
pub open spec fn stable_turns(n: nat) -> Seq<Act>
    decreases n,
{
    if n == 0 {
        seq![
            Act::Say(Message::StableStart),
            Act::Go(seq![250, 300, 300, 300, 300]),
            Act::Rest(1500),
            Act::Say(Message::StableTilt),
            Act::Go(seq![250, 300, 300, 300, 500]),
            Act::Rest(1000),
        ]
    } else {
        let c4 = (200 + 60 * (n - 1)) as u16;
        let c5 = (500 - c4 / 2) as u16;
        stable_turns((n - 1) as nat).push(
            Act::Say(Message::StableTurn { c4, c5 }),
        ).push(
            Act::Go(seq![250, 300, 300, c4, c5]),
        ).push(
            Act::Rest(300),
        )
    }
}

/// The stable routine: the shoulder stays low, the wrist turns and the blade follows.
pub open spec fn stable_acts() -> Seq<Act> {
    stable_turns(6).push(
        Act::Go(seq![250, 300, 300, 300, 300]),
    ).push(
        Act::Say(Message::StableDone),
    )
}

/// Runs the stable routine.
pub fn run_perfect_stable_sequence(currents: &mut [u16; 5], cosines: &Cosines) -> (r: Vec<Step>)
    requires
        cosines@.len() == crate::glide::FIVE_STEPS,
    ensures
        r@ == crate::script::play(stable_acts(), old(currents)@, cosines@),
        final(currents)@ == seq![250u16, 300, 300, 300, 300],
        stable_bounds(old(currents)@, cosines@),
{
    let mut tape: Tape<5> = Tape::begin(*currents, cosines);
    tape.say(Message::StableStart);
    tape.go(250, 300, 300, 300, 300);
    tape.rest(1500);
    tape.say(Message::StableTilt);
    tape.go(250, 300, 300, 300, 500);
    tape.rest(1000);
    let mut c4: u16 = 200;
    let ghost mut n: nat = 0;
    assert(tape.acts@ =~= stable_turns(0));
    while c4 <= 500
        invariant
            n <= 6,
            c4 == 200 + 60 * n,
            tape.inv(),
            tape.origin@ == old(currents)@,
            tape.cosines == cosines,
            cosines@.len() == crate::glide::FIVE_STEPS,
            tape.acts@ == stable_turns(n),
        decreases 6 - n,
    {
        let c5: u16 = 500 - c4 / 2;
        tape.say(Message::StableTurn { c4, c5 });
        tape.go(250, 300, 300, c4, c5);
        tape.rest(300);
        proof {
            n = n + 1;
        }
        c4 = c4 + 60;
    }
    tape.go(250, 300, 300, 300, 300);
    tape.say(Message::StableDone);
    assert(tape.acts@ =~= stable_acts());
    proof {
        use_type_invariant(cosines);
        law_stable(old(currents)@, cosines@);
    }
    *currents = tape.pose;
    tape.steps
}

/// The peeling routine: elbow down, wrist round, blade along the curve, in six stages, up to turn
/// `n`.
pub open spec fn peel_turns(n: nat) -> Seq<Act>
    decreases n,
{
    if n == 0 {
        seq![
            Act::Say(Message::PeelStart),
            Act::Go(seq![250, 250, 200, 250, 480]),
            Act::Rest(1000),
        ]
    } else {
        let i = (n - 1) as u16;
        let c2 = (250 + i * 20) as u16;
        let c4 = (250 + i * 40) as u16;
        let c5 = (480 - i * 25) as u16;
        peel_turns((n - 1) as nat).push(
            Act::Say(Message::PeelTurn { c2, c4, c5 }),
        ).push(
            Act::Go(seq![250, c2, 200, c4, c5]),
        ).push(
            Act::Rest(400),
        )
    }
}

/// The peeling routine: elbow down, wrist round, blade along the curve, in six stages.
pub open spec fn peel_acts() -> Seq<Act> {
    peel_turns(6).push(
        Act::Say(Message::PeelDone),
    )
}

/// Runs the peeling routine.
pub fn run_spiral_peeling_sequence(currents: &mut [u16; 5], cosines: &Cosines) -> (r: Vec<Step>)
    requires
        cosines@.len() == crate::glide::FIVE_STEPS,
    ensures
        r@ == crate::script::play(peel_acts(), old(currents)@, cosines@),
        final(currents)@ == seq![250u16, 350, 200, 450, 355],
        peel_bounds(old(currents)@, cosines@),
{
    let mut tape: Tape<5> = Tape::begin(*currents, cosines);
    tape.say(Message::PeelStart);
    tape.go(250, 250, 200, 250, 480);
    tape.rest(1000);
    let mut i: u16 = 0;
    let ghost mut n: nat = 0;
    assert(tape.acts@ =~= peel_turns(0));
    while i < 6
        invariant
            n <= 6,
            i == n,
            tape.inv(),
            tape.origin@ == old(currents)@,
            tape.cosines == cosines,
            cosines@.len() == crate::glide::FIVE_STEPS,
            tape.acts@ == peel_turns(n),
            n == 6 ==> tape.pose@ == seq![250u16, 350, 200, 450, 355],
        decreases 6 - n,
    {
        let c2: u16 = 250 + i * 20;
        let c4: u16 = 250 + i * 40;
        let c5: u16 = 480 - i * 25;
        tape.say(Message::PeelTurn { c2, c4, c5 });
        tape.go(250, c2, 200, c4, c5);
        tape.rest(400);
        proof {
            n = n + 1;
        }
        i = i + 1;
    }
    tape.say(Message::PeelDone);
    assert(tape.acts@ =~= peel_acts());
    proof {
        use_type_invariant(cosines);
        law_peel(old(currents)@, cosines@);
    }
    *currents = tape.pose;
    tape.steps
}

/// The cooler peeling routine: smaller turns with longer rests, in eight stages, up to turn `n`.
pub open spec fn cool_turns(n: nat) -> Seq<Act>
    decreases n,
{
    if n == 0 {
        seq![
            Act::Say(Message::CoolStart),
            Act::Go(seq![250, 250, 200, 250, 480]),
            Act::Rest(1000),
        ]
    } else {
        let step = (n) as u16;
        let c2 = (250 + step * 15) as u16;
        let c4 = (250 + step * 30) as u16;
        let c5 = (480 - step * 20) as u16;
        cool_turns((n - 1) as nat).push(
            Act::Go(seq![250, c2, 200, c4, c5]),
        ).push(
            Act::Rest(550),
        )
    }
}

/// The cooler peeling routine: smaller turns with longer rests, in eight stages.
pub open spec fn cool_acts() -> Seq<Act> {
    cool_turns(8).push(
        Act::Say(Message::CoolDone),
    ).push(
        Act::Go(seq![250, 250, 300, 300, 300]),
    )
}

/// Runs the cooler peeling routine.
pub fn run_cool_spiral_sequence(currents: &mut [u16; 5], cosines: &Cosines) -> (r: Vec<Step>)
    requires
        cosines@.len() == crate::glide::FIVE_STEPS,
    ensures
        r@ == crate::script::play(cool_acts(), old(currents)@, cosines@),
        final(currents)@ == seq![250u16, 250, 300, 300, 300],
        cool_bounds(old(currents)@, cosines@),
{
    let mut tape: Tape<5> = Tape::begin(*currents, cosines);
    tape.say(Message::CoolStart);
    tape.go(250, 250, 200, 250, 480);
    tape.rest(1000);
    let mut step: u16 = 1;
    let ghost mut n: nat = 0;
    assert(tape.acts@ =~= cool_turns(0));
    while step <= 8
        invariant
            n <= 8,
            step == n + 1,
            tape.inv(),
            tape.origin@ == old(currents)@,
            tape.cosines == cosines,
            cosines@.len() == crate::glide::FIVE_STEPS,
            tape.acts@ == cool_turns(n),
        decreases 8 - n,
    {
        let c2: u16 = 250 + step * 15;
        let c4: u16 = 250 + step * 30;
        let c5: u16 = 480 - step * 20;
        tape.go(250, c2, 200, c4, c5);
        tape.rest(550);
        proof {
            n = n + 1;
        }
        step = step + 1;
    }
    tape.say(Message::CoolDone);
    tape.go(250, 250, 300, 300, 300);
    assert(tape.acts@ =~= cool_acts());
    proof {
        use_type_invariant(cosines);
        law_cool(old(currents)@, cosines@);
    }
    *currents = tape.pose;
    tape.steps
}

/// The blade alone, forth: up to turn `n`.
pub open spec fn solo_forth(n: nat) -> Seq<Act>
    decreases n,
{
    if n == 0 {
        seq![
            Act::Say(Message::SoloStart),
            Act::Go(seq![250, 300, 300, 350, 300]),
            Act::Rest(1000),
        ]
    } else {
        let c5 = (300 + 25 * (n - 1)) as u16;
        solo_forth((n - 1) as nat).push(Act::Say(Message::SoloForth { c5 })).push(
            Act::Go(seq![250, 300, 300, 350, c5]),
        ).push(Act::Rest(200))
    }
}

/// The blade alone, forth and back: up to turn `n` of the way back.
pub open spec fn solo_back(n: nat) -> Seq<Act>
    decreases n,
{
    if n == 0 {
        solo_forth(11)
    } else {
        let c5 = (550 - 25 * (n - 1)) as u16;
        solo_back((n - 1) as nat).push(Act::Say(Message::SoloBack { c5 })).push(
            Act::Go(seq![250, 300, 300, 350, c5]),
        ).push(Act::Rest(200))
    }
}

/// The solo of the blade: forth and back while the other joints stand.
pub open spec fn solo_acts() -> Seq<Act> {
    solo_back(11).push(Act::Say(Message::SoloDone))
}

/// Runs the solo of the blade.
pub fn run_c5_solo_performance(currents: &mut [u16; 5], cosines: &Cosines) -> (r: Vec<Step>)
    requires
        cosines@.len() == crate::glide::FIVE_STEPS,
    ensures
        r@ == crate::script::play(solo_acts(), old(currents)@, cosines@),
        final(currents)@ == seq![250u16, 300, 300, 350, 300],
        solo_bounds(old(currents)@, cosines@),
{
    let mut tape: Tape<5> = Tape::begin(*currents, cosines);
    tape.say(Message::SoloStart);
    tape.go(250, 300, 300, 350, 300);
    tape.rest(1000);
    let mut c5: u16 = 300;
    let ghost mut n: nat = 0;
    assert(tape.acts@ =~= solo_forth(0));
    while c5 <= 550
        invariant
            n <= 11,
            c5 == 300 + 25 * n,
            tape.inv(),
            tape.origin@ == old(currents)@,
            tape.cosines == cosines,
            cosines@.len() == crate::glide::FIVE_STEPS,
            tape.acts@ == solo_forth(n),
        decreases 11 - n,
    {
        tape.say(Message::SoloForth { c5 });
        tape.go(250, 300, 300, 350, c5);
        tape.rest(200);
        proof {
            n = n + 1;
        }
        c5 = c5 + 25;
    }
    c5 = 550;
    proof {
        n = 0;
    }
    while c5 >= 300
        invariant
            n <= 11,
            c5 == 550 - 25 * n,
            tape.inv(),
            tape.origin@ == old(currents)@,
            tape.cosines == cosines,
            cosines@.len() == crate::glide::FIVE_STEPS,
            tape.acts@ == solo_back(n),
            n == 11 ==> tape.pose@ == seq![250u16, 300, 300, 350, 300],
        decreases 11 - n,
    {
        tape.say(Message::SoloBack { c5 });
        tape.go(250, 300, 300, 350, c5);
        tape.rest(200);
        proof {
            n = n + 1;
        }
        c5 = c5 - 25;
    }
    tape.say(Message::SoloDone);
    proof {
        use_type_invariant(cosines);
        law_solo(old(currents)@, cosines@);
    }
    *currents = tape.pose;
    tape.steps
}

/// The same position for every joint.
pub open spec fn level(joints: nat, position: u16) -> Seq<u16> {
    Seq::new(joints, |a: int| position)
}

/// Every write of a routine is one that the servos know, if it starts at such positions.
pub open spec fn within_servo_range(acts: Seq<Act>, at: Seq<u16>, cosines: Seq<Single>) -> bool {
    crate::glide::pose_in_bands(
        at,
        level(at.len(), crate::pulse::SERVO_MIN),
        level(at.len(), crate::pulse::SERVO_MAX),
    ) ==> crate::glide::writes_within(
        crate::script::play(acts, at, cosines),
        crate::pulse::SERVO_MIN,
        crate::pulse::SERVO_MAX,
    )
}

/// Every write of a routine goes to one of its joints.
proof fn lemma_play_channels(
    acts: Seq<Act>,
    at: Seq<u16>,
    cosines: Seq<Single>,
    low: Seq<u16>,
    high: Seq<u16>,
)
    requires
        at.len() == 4 || at.len() == 5,
        crate::glide::pose_in_bands(at, low, high),
        crate::script::acts_in_bands(acts, low, high),
    ensures
        crate::glide::only_channels(
            crate::script::play(acts, at, cosines),
            crate::script::pose_channels(at.len()),
        ),
    decreases acts.len(),
{
    if acts.len() > 0 {
        let before = acts.drop_last();
        crate::script::lemma_bands_before(acts, low, high);
        lemma_play_channels(before, at, cosines, low, high);
        let here = crate::script::pose_after(before, at);
        let act = acts[acts.len() - 1];
        let channels = crate::script::pose_channels(at.len());
        if let Act::Go(pose) = act {
            crate::glide::lemma_glide_channels(channels, here, pose, cosines, 15);
        }
    }
}

/// A routine whose poses lie between bounds in the servo range writes only in that range.
proof fn lemma_within(
    acts: Seq<Act>,
    at: Seq<u16>,
    cosines: Seq<Single>,
    low: Seq<u16>,
    high: Seq<u16>,
)
    requires
        at.len() == 4 || at.len() == 5,
        low.len() == at.len(),
        high.len() == at.len(),
        crate::script::acts_in_bands(acts, low, high),
        crate::cosines::are_cosines(cosines),
        forall|a: int| 0 <= a < low.len() ==> crate::pulse::SERVO_MIN <= #[trigger] low[a],
        forall|a: int| 0 <= a < high.len() ==> #[trigger] high[a] <= crate::pulse::SERVO_MAX,
    ensures
        within_servo_range(acts, at, cosines),
{
    let bottom = level(at.len(), crate::pulse::SERVO_MIN);
    let top = level(at.len(), crate::pulse::SERVO_MAX);
    if crate::glide::pose_in_bands(at, bottom, top) {
        assert(crate::script::acts_in_bands(acts, bottom, top)) by {
            assert forall|i: int| 0 <= i < acts.len() implies match #[trigger] acts[i] {
                Act::Go(pose) => crate::glide::pose_in_bands(pose, bottom, top),
                _ => true,
            } by {
                if let Act::Go(pose) = acts[i] {
                    assert(crate::glide::pose_in_bands(pose, low, high));
                    assert forall|a: int| 0 <= a < pose.len() implies bottom[a]
                        <= #[trigger] pose[a] <= top[a] by {
                        assert(low[a] <= pose[a] <= high[a]);
                    }
                }
            }
        }
        crate::script::law_play_bands(acts, at, cosines, bottom, top);
        lemma_play_channels(acts, at, cosines, bottom, top);
        let plan = crate::script::play(acts, at, cosines);
        let channels = crate::script::pose_channels(at.len());
        assert forall|i: int| 0 <= i < plan.len() implies match #[trigger] plan[i] {
            Step::Write { on, off, .. } => on == 0 && crate::pulse::SERVO_MIN <= off
                <= crate::pulse::SERVO_MAX,
            Step::TryWrite { on, off, .. } => on == 0 && crate::pulse::SERVO_MIN <= off
                <= crate::pulse::SERVO_MAX,
            _ => true,
        } by {
            if let Step::Write { channel, .. } = plan[i] {
                let a = channels.index_of(channel);
                assert(channels[a] == channel);
            }
        }
    }
}

/// A message, a move between the bounds and a rest.
proof fn lemma_bands_turn(
    acts: Seq<Act>,
    message: Message,
    pose: Seq<u16>,
    ms: u32,
    low: Seq<u16>,
    high: Seq<u16>,
)
    requires
        crate::script::acts_in_bands(acts, low, high),
        crate::glide::pose_in_bands(pose, low, high),
    ensures
        crate::script::acts_in_bands(
            acts.push(Act::Say(message)).push(Act::Go(pose)).push(Act::Rest(ms)),
            low,
            high,
        ),
{
    let said = acts.push(Act::Say(message));
    crate::script::lemma_bands_push(acts, Act::Say(message), low, high);
    crate::script::lemma_bands_push(said, Act::Go(pose), low, high);
    crate::script::lemma_bands_push(said.push(Act::Go(pose)), Act::Rest(ms), low, high);
}

/// The pose after a move and a rest is that of the move.
proof fn lemma_pose_rested(acts: Seq<Act>, pose: Seq<u16>, ms: u32, at: Seq<u16>)
    ensures
        crate::script::pose_after(acts.push(Act::Go(pose)).push(Act::Rest(ms)), at) == pose,
{
    let gone = acts.push(Act::Go(pose));
    assert(gone.last() == Act::Go(pose));
    assert(crate::script::pose_after(gone, at) == pose);
    assert(gone.push(Act::Rest(ms)).drop_last() =~= gone);
    assert(gone.push(Act::Rest(ms)).last() == Act::Rest(ms));
}

/// The spiral practice stays close to the apple once it has reached it. All that it writes is in
/// the servo range if it starts there.
pub open spec fn spiral_bounds(at: Seq<u16>, cosines: Seq<Single>) -> bool {
    &&& crate::script::stays(
        spiral_acts(),
        3,
        at,
        cosines,
        seq![450u16, 300, 300, 300],
        seq![480u16, 460, 330, 450],
    )
    &&& within_servo_range(spiral_acts(), at, cosines)
}

/// The spiral practice stays close to the apple once it has reached it. All that it writes is in
/// the servo range if it starts there.
pub proof fn law_spiral(at: Seq<u16>, cosines: Seq<Single>)
    requires
        at.len() == 4,
        crate::cosines::are_cosines(cosines),
    ensures
        spiral_bounds(at, cosines),
{
    let low = seq![450u16, 300, 300, 300];
    let high = seq![480u16, 460, 330, 450];
    let acts = spiral_acts();
    assert(acts.take(3).last() == acts[2]);
    crate::script::law_stays(acts, 3, at, cosines, low, high);
    lemma_within(acts, at, cosines, low, high);
}

/// On its way down the apple, from the first stage to the fourth, no joint of the spiral practice
/// goes back.
pub proof fn law_spiral_headings(at: Seq<u16>, cosines: Seq<Single>)
    requires
        at.len() == 4,
        crate::cosines::are_cosines(cosines),
        crate::cosines::are_falling(cosines),
    ensures
        crate::script::section_heads(
            spiral_acts(),
            3,
            12,
            at,
            seq![450u16, 400, 300, 300],
            seq![480u16, 460, 330, 450],
            cosines,
            seq![Heading::Up, Heading::Up, Heading::Up, Heading::Up],
        ),
{
    let acts = spiral_acts();
    let headings = seq![Heading::Up, Heading::Up, Heading::Up, Heading::Up];
    let from = seq![450u16, 400, 300, 300];
    assert(acts.take(3).last() == acts[2]);
    assert(acts.subrange(3, 3) =~= Seq::empty());
    crate::script::lemma_keep_next(acts, 3, 3, from, headings);
    crate::script::lemma_keep_next(acts, 3, 4, from, headings);
    crate::script::lemma_keep_next(acts, 3, 5, from, headings);
    crate::script::lemma_keep_next(acts, 3, 6, from, headings);
    crate::script::lemma_keep_next(acts, 3, 7, from, headings);
    crate::script::lemma_keep_next(acts, 3, 8, from, headings);
    crate::script::lemma_keep_next(acts, 3, 9, from, headings);
    crate::script::lemma_keep_next(acts, 3, 10, from, headings);
    crate::script::lemma_keep_next(acts, 3, 11, from, headings);
    crate::script::law_section(acts, 3, 12, at, cosines, headings);
}

/// The apple routine keeps to its working space once it has reached it. All that it writes is in
/// the servo range if it starts there.
pub open spec fn apple_bounds(at: Seq<u16>, cosines: Seq<Single>) -> bool {
    &&& crate::script::stays(
        apple_acts(),
        3,
        at,
        cosines,
        seq![420u16, 300, 300, 250],
        seq![480u16, 460, 330, 420],
    )
    &&& within_servo_range(apple_acts(), at, cosines)
}

/// The apple routine keeps to its working space once it has reached it. All that it writes is in
/// the servo range if it starts there.
pub proof fn law_apple(at: Seq<u16>, cosines: Seq<Single>)
    requires
        at.len() == 4,
        crate::cosines::are_cosines(cosines),
    ensures
        apple_bounds(at, cosines),
{
    let low = seq![420u16, 300, 300, 250];
    let high = seq![480u16, 460, 330, 420];
    let acts = apple_acts();
    assert(acts.take(3).last() == acts[2]);
    crate::script::law_stays(acts, 3, at, cosines, low, high);
    lemma_within(acts, at, cosines, low, high);
}

/// From the moment the apple is gripped to the end of the peeling, the gripper is held at 250 in
/// every write, and no other joint goes back.
pub proof fn law_apple_headings(at: Seq<u16>, cosines: Seq<Single>)
    requires
        at.len() == 4,
        crate::cosines::are_cosines(cosines),
        crate::cosines::are_falling(cosines),
    ensures
        crate::script::section_heads(
            apple_acts(),
            9,
            16,
            at,
            seq![450u16, 400, 300, 250],
            seq![480u16, 460, 330, 250],
            cosines,
            seq![Heading::Up, Heading::Up, Heading::Up, Heading::Still],
        ),
{
    let acts = apple_acts();
    let headings = seq![Heading::Up, Heading::Up, Heading::Up, Heading::Still];
    let from = seq![450u16, 400, 300, 250];
    assert(acts.take(9).last() == acts[8]);
    assert(acts.subrange(9, 9) =~= Seq::empty());
    crate::script::lemma_keep_next(acts, 9, 9, from, headings);
    crate::script::lemma_keep_next(acts, 9, 10, from, headings);
    crate::script::lemma_keep_next(acts, 9, 11, from, headings);
    crate::script::lemma_keep_next(acts, 9, 12, from, headings);
    crate::script::lemma_keep_next(acts, 9, 13, from, headings);
    crate::script::lemma_keep_next(acts, 9, 14, from, headings);
    crate::script::lemma_keep_next(acts, 9, 15, from, headings);
    crate::script::law_section(acts, 9, 16, at, cosines, headings);
}

proof fn lemma_upright_turns(n: nat)
    requires
        n <= 4,
    ensures
        upright_turns(n).len() >= 3,
        upright_turns(n)[1] == Act::Go(seq![480u16, 250, 300, 300, 300]),
        crate::script::acts_in_bands(
            upright_turns(n),
            seq![480u16, 250, 200, 300, 300],
            seq![480u16, 380, 300, 450, 450],
        ),
    decreases n,
{
    if n > 0 {
        lemma_upright_turns((n - 1) as nat);
        let before = upright_turns((n - 1) as nat);
        let low = seq![480u16, 250, 200, 300, 300];
        let high = seq![480u16, 380, 300, 450, 450];
        let c4 = (300 + 50 * (n - 1)) as u16;
        let c5 = (450 - c4 / 10) as u16;
        lemma_bands_turn(
            before,
            Message::UprightTurn { c4, c5 },
            seq![480, 380, 200, c4, c5],
            500,
            low,
            high,
        );
    }
}

/// Once it stands, the shoulder of the upright routine does not move. All that it writes is in the
/// servo range if it starts there.
pub open spec fn upright_bounds(at: Seq<u16>, cosines: Seq<Single>) -> bool {
    &&& crate::script::stays(
        upright_acts(),
        2,
        at,
        cosines,
        seq![480u16, 250, 200, 300, 300],
        seq![480u16, 380, 300, 450, 450],
    )
    &&& within_servo_range(upright_acts(), at, cosines)
}

/// Once it stands, the shoulder of the upright routine does not move. All that it writes is in the
/// servo range if it starts there.
pub proof fn law_upright(at: Seq<u16>, cosines: Seq<Single>)
    requires
        at.len() == 5,
        crate::cosines::are_cosines(cosines),
    ensures
        upright_bounds(at, cosines),
{
    let low = seq![480u16, 250, 200, 300, 300];
    let high = seq![480u16, 380, 300, 450, 450];
    let acts = upright_acts();
    lemma_upright_turns(4);
    let before = upright_turns(4);
    crate::script::lemma_bands_push(before, Act::Say(Message::UprightHome), low, high);
    crate::script::lemma_bands_push(
        before.push(Act::Say(Message::UprightHome)),
        Act::Go(seq![480u16, 250, 300, 300, 300]),
        low,
        high,
    );
    assert(acts[1] == before[1]);
    assert(acts.take(2).last() == acts[1]);
    crate::script::law_stays(acts, 2, at, cosines, low, high);
    lemma_within(acts, at, cosines, low, high);
}

/// The pose after turn `n`.
spec fn upright_turns_pose(n: nat) -> Seq<u16> {
    if n == 0 {
        seq![480u16, 350, 200, 300, 450]
    } else {
        let c4 = (300 + 50 * (n - 1)) as u16;
        let c5 = (450 - c4 / 10) as u16;
        seq![480, 380, 200, c4, c5]
    }
}

proof fn lemma_upright_turns_keep(n: nat)
    requires
        0 <= n <= 4,
    ensures
        upright_turns(n).len() == 6 + 3 * n,
        upright_turns(n).take(6) == upright_turns(0),
        crate::script::all_keep(
            upright_turns(n).skip(6),
            seq![480u16, 350, 200, 300, 450],
            seq![Heading::Still, Heading::Up, Heading::Still, Heading::Up, Heading::Down],
        ),
        crate::script::pose_after(
            upright_turns(n).skip(6),
            seq![480u16, 350, 200, 300, 450],
        ) == upright_turns_pose(n),
    decreases n,
{
    let from = seq![480u16, 350, 200, 300, 450];
    let headings = seq![Heading::Still, Heading::Up, Heading::Still, Heading::Up, Heading::Down];
    if n > 0 {
        lemma_upright_turns_keep((n - 1) as nat);
        let part = upright_turns((n - 1) as nat).skip(6);
        let c4 = (300 + 50 * (n - 1)) as u16;
        let c5 = (450 - c4 / 10) as u16;
        crate::script::lemma_keep_turn(
            part,
            Message::UprightTurn { c4, c5 },
            seq![480, 380, 200, c4, c5],
            500,
            from,
            headings,
        );
        let said = part.push(Act::Say(Message::UprightTurn { c4, c5 }));
        assert(upright_turns(n).skip(6) =~= said.push(Act::Go(seq![480, 380, 200, c4, c5])).push(
            Act::Rest(500),
        ));
        assert(upright_turns(n).take(6) =~= upright_turns((n - 1) as nat).take(6));
    } else {
        assert(upright_turns(n).skip(6) =~= Seq::empty());
        assert(upright_turns(n).take(6) =~= upright_turns(n));
    }
}

/// While the wrist of the upright routine turns, it never turns back, and the blade only comes
/// down.
pub proof fn law_upright_headings(at: Seq<u16>, cosines: Seq<Single>)
    requires
        at.len() == 5,
        crate::cosines::are_cosines(cosines),
        crate::cosines::are_falling(cosines),
    ensures
        crate::script::section_heads(
            upright_acts(),
            6,
            18,
            at,
            seq![480u16, 350, 200, 300, 450],
            seq![480u16, 380, 200, 450, 405],
            cosines,
            seq![Heading::Still, Heading::Up, Heading::Still, Heading::Up, Heading::Down],
        ),
{
    let acts = upright_acts();
    let headings = seq![Heading::Still, Heading::Up, Heading::Still, Heading::Up, Heading::Down];
    lemma_upright_turns_keep(4);
    assert(acts.subrange(6, 18) =~= upright_turns(4).skip(6));
    assert(acts.take(6) =~= upright_turns(4).take(6));
    let lead = upright_turns(0);
    let moved = lead.drop_last().drop_last();
    assert(lead =~= moved.push(Act::Go(seq![480u16, 350, 200, 300, 450])).push(lead.last()));
    lemma_pose_rested(moved, seq![480u16, 350, 200, 300, 450], lead.last()->Rest_0, at);
    crate::script::law_section(acts, 6, 18, at, cosines, headings);
}

proof fn lemma_pillar_turns(n: nat)
    requires
        n <= 6,
    ensures
        pillar_turns(n).len() >= 3,
        pillar_turns(n)[1] == Act::Go(seq![480u16, 200, 300, 300, 300]),
        crate::script::acts_in_bands(
            pillar_turns(n),
            seq![480u16, 200, 300, 250, 300],
            seq![480u16, 200, 300, 450, 450],
        ),
    decreases n,
{
    if n > 0 {
        lemma_pillar_turns((n - 1) as nat);
        let before = pillar_turns((n - 1) as nat);
        let low = seq![480u16, 200, 300, 250, 300];
        let high = seq![480u16, 200, 300, 450, 450];
        let c4 = (250 + 40 * (n - 1)) as u16;
        let c5 = (450 - c4 / 4) as u16;
        lemma_bands_turn(
            before,
            Message::PillarTurn { c4, c5 },
            seq![480, 200, 300, c4, c5],
            400,
            low,
            high,
        );
    }
}

/// Once they stand, shoulder, elbow and gripper of the pillar routine do not move. All that it
/// writes is in the servo range if it starts there.
pub open spec fn pillar_bounds(at: Seq<u16>, cosines: Seq<Single>) -> bool {
    &&& crate::script::stays(
        pillar_acts(),
        2,
        at,
        cosines,
        seq![480u16, 200, 300, 250, 300],
        seq![480u16, 200, 300, 450, 450],
    )
    &&& within_servo_range(pillar_acts(), at, cosines)
}

/// Once they stand, shoulder, elbow and gripper of the pillar routine do not move. All that it
/// writes is in the servo range if it starts there.
pub proof fn law_pillar(at: Seq<u16>, cosines: Seq<Single>)
    requires
        at.len() == 5,
        crate::cosines::are_cosines(cosines),
    ensures
        pillar_bounds(at, cosines),
{
    let low = seq![480u16, 200, 300, 250, 300];
    let high = seq![480u16, 200, 300, 450, 450];
    let acts = pillar_acts();
    lemma_pillar_turns(6);
    let before = pillar_turns(6);
    crate::script::lemma_bands_push(before, Act::Say(Message::PillarDone), low, high);
    assert(acts[1] == before[1]);
    assert(acts.take(2).last() == acts[1]);
    crate::script::law_stays(acts, 2, at, cosines, low, high);
    lemma_within(acts, at, cosines, low, high);
}

/// The pose after turn `n`.
spec fn pillar_turns_pose(n: nat) -> Seq<u16> {
    if n == 0 {
        seq![480u16, 200, 300, 250, 388]
    } else {
        let c4 = (250 + 40 * (n - 1)) as u16;
        let c5 = (450 - c4 / 4) as u16;
        seq![480, 200, 300, c4, c5]
    }
}

proof fn lemma_pillar_turns_keep(n: nat)
    requires
        1 <= n <= 6,
    ensures
        pillar_turns(n).len() == 6 + 3 * n,
        pillar_turns(n).take(9) == pillar_turns(1),
        crate::script::all_keep(
            pillar_turns(n).skip(9),
            seq![480u16, 200, 300, 250, 388],
            seq![Heading::Still, Heading::Still, Heading::Still, Heading::Up, Heading::Down],
        ),
        crate::script::pose_after(
            pillar_turns(n).skip(9),
            seq![480u16, 200, 300, 250, 388],
        ) == pillar_turns_pose(n),
    decreases n,
{
    let from = seq![480u16, 200, 300, 250, 388];
    let headings = seq![Heading::Still, Heading::Still, Heading::Still, Heading::Up, Heading::Down];
    if n > 1 {
        lemma_pillar_turns_keep((n - 1) as nat);
        let part = pillar_turns((n - 1) as nat).skip(9);
        let c4 = (250 + 40 * (n - 1)) as u16;
        let c5 = (450 - c4 / 4) as u16;
        crate::script::lemma_keep_turn(
            part,
            Message::PillarTurn { c4, c5 },
            seq![480, 200, 300, c4, c5],
            400,
            from,
            headings,
        );
        assert(pillar_turns(n).skip(9) =~= part.push(Act::Say(Message::PillarTurn { c4, c5 })).push(
            Act::Go(seq![480, 200, 300, c4, c5]),
        ).push(Act::Rest(400)));
        assert(pillar_turns(n).take(9) =~= pillar_turns((n - 1) as nat).take(9));
    } else {
        reveal_with_fuel(pillar_turns, 2);
        assert(pillar_turns(n).skip(9) =~= Seq::empty());
        assert(pillar_turns(n).take(9) =~= pillar_turns(n));
    }
}

/// From its first turn on, the wrist of the pillar routine never turns back, and the blade only
/// comes down.
pub proof fn law_pillar_headings(at: Seq<u16>, cosines: Seq<Single>)
    requires
        at.len() == 5,
        crate::cosines::are_cosines(cosines),
        crate::cosines::are_falling(cosines),
    ensures
        crate::script::section_heads(
            pillar_acts(),
            9,
            24,
            at,
            seq![480u16, 200, 300, 250, 388],
            seq![480u16, 200, 300, 450, 338],
            cosines,
            seq![Heading::Still, Heading::Still, Heading::Still, Heading::Up, Heading::Down],
        ),
{
    let acts = pillar_acts();
    let headings = seq![Heading::Still, Heading::Still, Heading::Still, Heading::Up, Heading::Down];
    lemma_pillar_turns_keep(6);
    assert(acts.subrange(9, 24) =~= pillar_turns(6).skip(9));
    assert(acts.take(9) =~= pillar_turns(6).take(9));
    let lead = pillar_turns(1);
    let moved = lead.drop_last().drop_last();
    assert(lead =~= moved.push(Act::Go(seq![480u16, 200, 300, 250, 388])).push(lead.last()));
    lemma_pose_rested(moved, seq![480u16, 200, 300, 250, 388], lead.last()->Rest_0, at);
    crate::script::law_section(acts, 9, 24, at, cosines, headings);
}

proof fn lemma_stable_turns(n: nat)
    requires
        n <= 6,
    ensures
        stable_turns(n).len() >= 3,
        stable_turns(n)[1] == Act::Go(seq![250u16, 300, 300, 300, 300]),
        crate::script::acts_in_bands(
            stable_turns(n),
            seq![250u16, 300, 300, 200, 250],
            seq![250u16, 300, 300, 500, 500],
        ),
    decreases n,
{
    if n > 0 {
        lemma_stable_turns((n - 1) as nat);
        let before = stable_turns((n - 1) as nat);
        let low = seq![250u16, 300, 300, 200, 250];
        let high = seq![250u16, 300, 300, 500, 500];
        let c4 = (200 + 60 * (n - 1)) as u16;
        let c5 = (500 - c4 / 2) as u16;
        lemma_bands_turn(
            before,
            Message::StableTurn { c4, c5 },
            seq![250, 300, 300, c4, c5],
            300,
            low,
            high,
        );
    }
}

/// Once they are in place, shoulder, elbow and gripper of the stable routine do not move. All that
/// it writes is in the servo range if it starts there.
pub open spec fn stable_bounds(at: Seq<u16>, cosines: Seq<Single>) -> bool {
    &&& crate::script::stays(
        stable_acts(),
        2,
        at,
        cosines,
        seq![250u16, 300, 300, 200, 250],
        seq![250u16, 300, 300, 500, 500],
    )
    &&& within_servo_range(stable_acts(), at, cosines)
}

/// Once they are in place, shoulder, elbow and gripper of the stable routine do not move. All that
/// it writes is in the servo range if it starts there.
pub proof fn law_stable(at: Seq<u16>, cosines: Seq<Single>)
    requires
        at.len() == 5,
        crate::cosines::are_cosines(cosines),
    ensures
        stable_bounds(at, cosines),
{
    let low = seq![250u16, 300, 300, 200, 250];
    let high = seq![250u16, 300, 300, 500, 500];
    let acts = stable_acts();
    lemma_stable_turns(6);
    let before = stable_turns(6);
    crate::script::lemma_bands_push(before, Act::Go(seq![250u16, 300, 300, 300, 300]), low, high);
    crate::script::lemma_bands_push(
        before.push(Act::Go(seq![250u16, 300, 300, 300, 300])),
        Act::Say(Message::StableDone),
        low,
        high,
    );
    assert(acts[1] == before[1]);
    assert(acts.take(2).last() == acts[1]);
    crate::script::law_stays(acts, 2, at, cosines, low, high);
    lemma_within(acts, at, cosines, low, high);
}

/// The pose after turn `n`.
spec fn stable_turns_pose(n: nat) -> Seq<u16> {
    if n == 0 {
        seq![250u16, 300, 300, 200, 400]
    } else {
        let c4 = (200 + 60 * (n - 1)) as u16;
        let c5 = (500 - c4 / 2) as u16;
        seq![250, 300, 300, c4, c5]
    }
}

proof fn lemma_stable_turns_keep(n: nat)
    requires
        1 <= n <= 6,
    ensures
        stable_turns(n).len() == 6 + 3 * n,
        stable_turns(n).take(9) == stable_turns(1),
        crate::script::all_keep(
            stable_turns(n).skip(9),
            seq![250u16, 300, 300, 200, 400],
            seq![Heading::Still, Heading::Still, Heading::Still, Heading::Up, Heading::Down],
        ),
        crate::script::pose_after(
            stable_turns(n).skip(9),
            seq![250u16, 300, 300, 200, 400],
        ) == stable_turns_pose(n),
    decreases n,
{
    let from = seq![250u16, 300, 300, 200, 400];
    let headings = seq![Heading::Still, Heading::Still, Heading::Still, Heading::Up, Heading::Down];
    if n > 1 {
        lemma_stable_turns_keep((n - 1) as nat);
        let part = stable_turns((n - 1) as nat).skip(9);
        let c4 = (200 + 60 * (n - 1)) as u16;
        let c5 = (500 - c4 / 2) as u16;
        crate::script::lemma_keep_turn(
            part,
            Message::StableTurn { c4, c5 },
            seq![250, 300, 300, c4, c5],
            300,
            from,
            headings,
        );
        assert(stable_turns(n).skip(9) =~= part.push(Act::Say(Message::StableTurn { c4, c5 })).push(
            Act::Go(seq![250, 300, 300, c4, c5]),
        ).push(Act::Rest(300)));
        assert(stable_turns(n).take(9) =~= stable_turns((n - 1) as nat).take(9));
    } else {
        reveal_with_fuel(stable_turns, 2);
        assert(stable_turns(n).skip(9) =~= Seq::empty());
        assert(stable_turns(n).take(9) =~= stable_turns(n));
    }
}

/// From its first turn on, the wrist of the stable routine never turns back, and the blade only
/// comes down.
pub proof fn law_stable_headings(at: Seq<u16>, cosines: Seq<Single>)
    requires
        at.len() == 5,
        crate::cosines::are_cosines(cosines),
        crate::cosines::are_falling(cosines),
    ensures
        crate::script::section_heads(
            stable_acts(),
            9,
            24,
            at,
            seq![250u16, 300, 300, 200, 400],
            seq![250u16, 300, 300, 500, 250],
            cosines,
            seq![Heading::Still, Heading::Still, Heading::Still, Heading::Up, Heading::Down],
        ),
{
    let acts = stable_acts();
    let headings = seq![Heading::Still, Heading::Still, Heading::Still, Heading::Up, Heading::Down];
    lemma_stable_turns_keep(6);
    assert(acts.subrange(9, 24) =~= stable_turns(6).skip(9));
    assert(acts.take(9) =~= stable_turns(6).take(9));
    let lead = stable_turns(1);
    let moved = lead.drop_last().drop_last();
    assert(lead =~= moved.push(Act::Go(seq![250u16, 300, 300, 200, 400])).push(lead.last()));
    lemma_pose_rested(moved, seq![250u16, 300, 300, 200, 400], lead.last()->Rest_0, at);
    crate::script::law_section(acts, 9, 24, at, cosines, headings);
}

proof fn lemma_peel_turns(n: nat)
    requires
        n <= 6,
    ensures
        peel_turns(n).len() >= 3,
        peel_turns(n)[1] == Act::Go(seq![250u16, 250, 200, 250, 480]),
        crate::script::acts_in_bands(
            peel_turns(n),
            seq![250u16, 250, 200, 250, 355],
            seq![250u16, 350, 200, 450, 480],
        ),
    decreases n,
{
    if n > 0 {
        lemma_peel_turns((n - 1) as nat);
        let before = peel_turns((n - 1) as nat);
        let low = seq![250u16, 250, 200, 250, 355];
        let high = seq![250u16, 350, 200, 450, 480];
        let i = (n - 1) as u16;
        let c2 = (250 + i * 20) as u16;
        let c4 = (250 + i * 40) as u16;
        let c5 = (480 - i * 25) as u16;
        lemma_bands_turn(
            before,
            Message::PeelTurn { c2, c4, c5 },
            seq![250, c2, 200, c4, c5],
            400,
            low,
            high,
        );
    }
}

/// Once they are in place, shoulder and gripper of the peeling routine do not move. All that it
/// writes is in the servo range if it starts there.
pub open spec fn peel_bounds(at: Seq<u16>, cosines: Seq<Single>) -> bool {
    &&& crate::script::stays(
        peel_acts(),
        2,
        at,
        cosines,
        seq![250u16, 250, 200, 250, 355],
        seq![250u16, 350, 200, 450, 480],
    )
    &&& within_servo_range(peel_acts(), at, cosines)
}

/// Once they are in place, shoulder and gripper of the peeling routine do not move. All that it
/// writes is in the servo range if it starts there.
pub proof fn law_peel(at: Seq<u16>, cosines: Seq<Single>)
    requires
        at.len() == 5,
        crate::cosines::are_cosines(cosines),
    ensures
        peel_bounds(at, cosines),
{
    let low = seq![250u16, 250, 200, 250, 355];
    let high = seq![250u16, 350, 200, 450, 480];
    let acts = peel_acts();
    lemma_peel_turns(6);
    let before = peel_turns(6);
    crate::script::lemma_bands_push(before, Act::Say(Message::PeelDone), low, high);
    assert(acts[1] == before[1]);
    assert(acts.take(2).last() == acts[1]);
    crate::script::law_stays(acts, 2, at, cosines, low, high);
    lemma_within(acts, at, cosines, low, high);
}

/// The pose after turn `n`.
spec fn peel_turns_pose(n: nat) -> Seq<u16> {
    if n == 0 {
        seq![250u16, 250, 200, 250, 480]
    } else {
        let i = (n - 1) as u16;
        let c2 = (250 + i * 20) as u16;
        let c4 = (250 + i * 40) as u16;
        let c5 = (480 - i * 25) as u16;
        seq![250, c2, 200, c4, c5]
    }
}

proof fn lemma_peel_turns_keep(n: nat)
    requires
        0 <= n <= 6,
    ensures
        peel_turns(n).len() == 3 + 3 * n,
        peel_turns(n).take(3) == peel_turns(0),
        crate::script::all_keep(
            peel_turns(n).skip(3),
            seq![250u16, 250, 200, 250, 480],
            seq![Heading::Still, Heading::Up, Heading::Still, Heading::Up, Heading::Down],
        ),
        crate::script::pose_after(
            peel_turns(n).skip(3),
            seq![250u16, 250, 200, 250, 480],
        ) == peel_turns_pose(n),
    decreases n,
{
    let from = seq![250u16, 250, 200, 250, 480];
    let headings = seq![Heading::Still, Heading::Up, Heading::Still, Heading::Up, Heading::Down];
    if n > 0 {
        lemma_peel_turns_keep((n - 1) as nat);
        let part = peel_turns((n - 1) as nat).skip(3);
        let i = (n - 1) as u16;
        let c2 = (250 + i * 20) as u16;
        let c4 = (250 + i * 40) as u16;
        let c5 = (480 - i * 25) as u16;
        crate::script::lemma_keep_turn(
            part,
            Message::PeelTurn { c2, c4, c5 },
            seq![250, c2, 200, c4, c5],
            400,
            from,
            headings,
        );
        assert(peel_turns(n).skip(3) =~= part.push(Act::Say(Message::PeelTurn { c2, c4, c5 })).push(
            Act::Go(seq![250, c2, 200, c4, c5]),
        ).push(Act::Rest(400)));
        assert(peel_turns(n).take(3) =~= peel_turns((n - 1) as nat).take(3));
    } else {
        assert(peel_turns(n).skip(3) =~= Seq::empty());
        assert(peel_turns(n).take(3) =~= peel_turns(n));
    }
}

/// After the first move of the peeling routine, elbow and wrist never go back, and the blade only
/// comes down; shoulder and gripper stand.
pub proof fn law_peel_headings(at: Seq<u16>, cosines: Seq<Single>)
    requires
        at.len() == 5,
        crate::cosines::are_cosines(cosines),
        crate::cosines::are_falling(cosines),
    ensures
        crate::script::section_heads(
            peel_acts(),
            3,
            21,
            at,
            seq![250u16, 250, 200, 250, 480],
            seq![250u16, 350, 200, 450, 355],
            cosines,
            seq![Heading::Still, Heading::Up, Heading::Still, Heading::Up, Heading::Down],
        ),
{
    let acts = peel_acts();
    let headings = seq![Heading::Still, Heading::Up, Heading::Still, Heading::Up, Heading::Down];
    lemma_peel_turns_keep(6);
    assert(acts.subrange(3, 21) =~= peel_turns(6).skip(3));
    assert(acts.take(3) =~= peel_turns(6).take(3));
    let lead = peel_turns(0);
    let moved = lead.drop_last().drop_last();
    assert(lead =~= moved.push(Act::Go(seq![250u16, 250, 200, 250, 480])).push(lead.last()));
    lemma_pose_rested(moved, seq![250u16, 250, 200, 250, 480], lead.last()->Rest_0, at);
    crate::script::law_section(acts, 3, 21, at, cosines, headings);
}

proof fn lemma_cool_turns(n: nat)
    requires
        n <= 8,
    ensures
        cool_turns(n).len() >= 3,
        cool_turns(n)[1] == Act::Go(seq![250u16, 250, 200, 250, 480]),
        crate::script::acts_in_bands(
            cool_turns(n),
            seq![250u16, 250, 200, 250, 300],
            seq![250u16, 370, 300, 490, 480],
        ),
    decreases n,
{
    if n > 0 {
        lemma_cool_turns((n - 1) as nat);
        let before = cool_turns((n - 1) as nat);
        let low = seq![250u16, 250, 200, 250, 300];
        let high = seq![250u16, 370, 300, 490, 480];
        let step = (n) as u16;
        let c2 = (250 + step * 15) as u16;
        let c4 = (250 + step * 30) as u16;
        let c5 = (480 - step * 20) as u16;
        crate::script::lemma_bands_push(before, Act::Go(seq![250, c2, 200, c4, c5]), low, high);
        crate::script::lemma_bands_push(
            before.push(Act::Go(seq![250, c2, 200, c4, c5])),
            Act::Rest(550),
            low,
            high,
        );
    }
}

/// Once it is in place, the shoulder of the cooler peeling routine does not move. All that it
/// writes is in the servo range if it starts there.
pub open spec fn cool_bounds(at: Seq<u16>, cosines: Seq<Single>) -> bool {
    &&& crate::script::stays(
        cool_acts(),
        2,
        at,
        cosines,
        seq![250u16, 250, 200, 250, 300],
        seq![250u16, 370, 300, 490, 480],
    )
    &&& within_servo_range(cool_acts(), at, cosines)
}

/// Once it is in place, the shoulder of the cooler peeling routine does not move. All that it
/// writes is in the servo range if it starts there.
pub proof fn law_cool(at: Seq<u16>, cosines: Seq<Single>)
    requires
        at.len() == 5,
        crate::cosines::are_cosines(cosines),
    ensures
        cool_bounds(at, cosines),
{
    let low = seq![250u16, 250, 200, 250, 300];
    let high = seq![250u16, 370, 300, 490, 480];
    let acts = cool_acts();
    lemma_cool_turns(8);
    let before = cool_turns(8);
    crate::script::lemma_bands_push(before, Act::Say(Message::CoolDone), low, high);
    crate::script::lemma_bands_push(
        before.push(Act::Say(Message::CoolDone)),
        Act::Go(seq![250u16, 250, 300, 300, 300]),
        low,
        high,
    );
    assert(acts[1] == before[1]);
    assert(acts.take(2).last() == acts[1]);
    crate::script::law_stays(acts, 2, at, cosines, low, high);
    lemma_within(acts, at, cosines, low, high);
}

/// The pose after turn `n`.
spec fn cool_turns_pose(n: nat) -> Seq<u16> {
    if n == 0 {
        seq![250u16, 250, 200, 250, 480]
    } else {
        let step = (n) as u16;
        let c2 = (250 + step * 15) as u16;
        let c4 = (250 + step * 30) as u16;
        let c5 = (480 - step * 20) as u16;
        seq![250, c2, 200, c4, c5]
    }
}

proof fn lemma_cool_turns_keep(n: nat)
    requires
        0 <= n <= 8,
    ensures
        cool_turns(n).len() == 3 + 2 * n,
        cool_turns(n).take(3) == cool_turns(0),
        crate::script::all_keep(
            cool_turns(n).skip(3),
            seq![250u16, 250, 200, 250, 480],
            seq![Heading::Still, Heading::Up, Heading::Still, Heading::Up, Heading::Down],
        ),
        crate::script::pose_after(
            cool_turns(n).skip(3),
            seq![250u16, 250, 200, 250, 480],
        ) == cool_turns_pose(n),
    decreases n,
{
    let from = seq![250u16, 250, 200, 250, 480];
    let headings = seq![Heading::Still, Heading::Up, Heading::Still, Heading::Up, Heading::Down];
    if n > 0 {
        lemma_cool_turns_keep((n - 1) as nat);
        let part = cool_turns((n - 1) as nat).skip(3);
        let step = (n) as u16;
        let c2 = (250 + step * 15) as u16;
        let c4 = (250 + step * 30) as u16;
        let c5 = (480 - step * 20) as u16;
        crate::script::lemma_keep_push(part, Act::Go(seq![250, c2, 200, c4, c5]), from, headings);
        crate::script::lemma_keep_push(
            part.push(Act::Go(seq![250, c2, 200, c4, c5])),
            Act::Rest(550),
            from,
            headings,
        );
        assert(cool_turns(n).skip(3) =~= part.push(Act::Go(seq![250, c2, 200, c4, c5])).push(
            Act::Rest(550),
        ));
        assert(cool_turns(n).take(3) =~= cool_turns((n - 1) as nat).take(3));
    } else {
        assert(cool_turns(n).skip(3) =~= Seq::empty());
        assert(cool_turns(n).take(3) =~= cool_turns(n));
    }
}

/// While it peels, elbow and wrist of the cooler routine never go back, and the blade only comes
/// down; shoulder and gripper stand.
pub proof fn law_cool_headings(at: Seq<u16>, cosines: Seq<Single>)
    requires
        at.len() == 5,
        crate::cosines::are_cosines(cosines),
        crate::cosines::are_falling(cosines),
    ensures
        crate::script::section_heads(
            cool_acts(),
            3,
            19,
            at,
            seq![250u16, 250, 200, 250, 480],
            seq![250u16, 370, 200, 490, 320],
            cosines,
            seq![Heading::Still, Heading::Up, Heading::Still, Heading::Up, Heading::Down],
        ),
{
    let acts = cool_acts();
    let headings = seq![Heading::Still, Heading::Up, Heading::Still, Heading::Up, Heading::Down];
    lemma_cool_turns_keep(8);
    assert(acts.subrange(3, 19) =~= cool_turns(8).skip(3));
    assert(acts.take(3) =~= cool_turns(8).take(3));
    let lead = cool_turns(0);
    let moved = lead.drop_last().drop_last();
    assert(lead =~= moved.push(Act::Go(seq![250u16, 250, 200, 250, 480])).push(lead.last()));
    lemma_pose_rested(moved, seq![250u16, 250, 200, 250, 480], lead.last()->Rest_0, at);
    crate::script::law_section(acts, 3, 19, at, cosines, headings);
}

proof fn lemma_solo_forth(n: nat)
    requires
        n <= 11,
    ensures
        solo_forth(n).len() >= 3,
        solo_forth(n)[1] == Act::Go(seq![250u16, 300, 300, 350, 300]),
        crate::script::acts_in_bands(
            solo_forth(n),
            seq![250u16, 300, 300, 350, 300],
            seq![250u16, 300, 300, 350, 550],
        ),
    decreases n,
{
    if n > 0 {
        lemma_solo_forth((n - 1) as nat);
        let before = solo_forth((n - 1) as nat);
        let low = seq![250u16, 300, 300, 350, 300];
        let high = seq![250u16, 300, 300, 350, 550];
        let c5 = (300 + 25 * (n - 1)) as u16;
        lemma_bands_turn(
            before,
            Message::SoloForth { c5 },
            seq![250, 300, 300, 350, c5],
            200,
            low,
            high,
        );
    }
}

proof fn lemma_solo_back(n: nat)
    requires
        n <= 11,
    ensures
        solo_back(n).len() >= 3,
        solo_back(n)[1] == Act::Go(seq![250u16, 300, 300, 350, 300]),
        crate::script::acts_in_bands(
            solo_back(n),
            seq![250u16, 300, 300, 350, 300],
            seq![250u16, 300, 300, 350, 550],
        ),
    decreases n,
{
    if n > 0 {
        lemma_solo_back((n - 1) as nat);
        let before = solo_back((n - 1) as nat);
        let low = seq![250u16, 300, 300, 350, 300];
        let high = seq![250u16, 300, 300, 350, 550];
        let c5 = (550 - 25 * (n - 1)) as u16;
        lemma_bands_turn(
            before,
            Message::SoloBack { c5 },
            seq![250, 300, 300, 350, c5],
            200,
            low,
            high,
        );
    } else {
        lemma_solo_forth(11);
    }
}

/// Once they are in place, all joints but the blade stand still in its solo. All that it writes is
/// in the servo range if it starts there.
pub open spec fn solo_bounds(at: Seq<u16>, cosines: Seq<Single>) -> bool {
    &&& crate::script::stays(
        solo_acts(),
        2,
        at,
        cosines,
        seq![250u16, 300, 300, 350, 300],
        seq![250u16, 300, 300, 350, 550],
    )
    &&& within_servo_range(solo_acts(), at, cosines)
}

/// Once they are in place, all joints but the blade stand still in its solo. All that it writes is
/// in the servo range if it starts there.
pub proof fn law_solo(at: Seq<u16>, cosines: Seq<Single>)
    requires
        at.len() == 5,
        crate::cosines::are_cosines(cosines),
    ensures
        solo_bounds(at, cosines),
{
    let low = seq![250u16, 300, 300, 350, 300];
    let high = seq![250u16, 300, 300, 350, 550];
    let acts = solo_acts();
    lemma_solo_back(11);
    let before = solo_back(11);
    crate::script::lemma_bands_push(before, Act::Say(Message::SoloDone), low, high);
    assert(acts[1] == before[1]);
    assert(acts.take(2).last() == acts[1]);
    crate::script::law_stays(acts, 2, at, cosines, low, high);
    lemma_within(acts, at, cosines, low, high);
}

/// The pose after turn `n`.
spec fn solo_forth_pose(n: nat) -> Seq<u16> {
    if n == 0 {
        seq![250u16, 300, 300, 350, 300]
    } else {
        let c5 = (300 + 25 * (n - 1)) as u16;
        seq![250, 300, 300, 350, c5]
    }
}

proof fn lemma_solo_forth_keep(n: nat)
    requires
        0 <= n <= 11,
    ensures
        solo_forth(n).len() == 3 + 3 * n,
        solo_forth(n).take(3) == solo_forth(0),
        crate::script::all_keep(
            solo_forth(n).skip(3),
            seq![250u16, 300, 300, 350, 300],
            seq![Heading::Still, Heading::Still, Heading::Still, Heading::Still, Heading::Up],
        ),
        crate::script::pose_after(
            solo_forth(n).skip(3),
            seq![250u16, 300, 300, 350, 300],
        ) == solo_forth_pose(n),
    decreases n,
{
    let from = seq![250u16, 300, 300, 350, 300];
    let headings = seq![
        Heading::Still,
        Heading::Still,
        Heading::Still,
        Heading::Still,
        Heading::Up,
    ];
    if n > 0 {
        lemma_solo_forth_keep((n - 1) as nat);
        let part = solo_forth((n - 1) as nat).skip(3);
        let c5 = (300 + 25 * (n - 1)) as u16;
        crate::script::lemma_keep_turn(
            part,
            Message::SoloForth { c5 },
            seq![250, 300, 300, 350, c5],
            200,
            from,
            headings,
        );
        assert(solo_forth(n).skip(3) =~= part.push(Act::Say(Message::SoloForth { c5 })).push(
            Act::Go(seq![250, 300, 300, 350, c5]),
        ).push(Act::Rest(200)));
        assert(solo_forth(n).take(3) =~= solo_forth((n - 1) as nat).take(3));
    } else {
        assert(solo_forth(n).skip(3) =~= Seq::empty());
        assert(solo_forth(n).take(3) =~= solo_forth(n));
    }
}

/// The pose after turn `n`.
spec fn solo_back_pose(n: nat) -> Seq<u16> {
    if n == 0 {
        seq![250u16, 300, 300, 350, 550]
    } else {
        let c5 = (550 - 25 * (n - 1)) as u16;
        seq![250, 300, 300, 350, c5]
    }
}

proof fn lemma_solo_back_keep(n: nat)
    requires
        0 <= n <= 11,
    ensures
        solo_back(n).len() == 36 + 3 * n,
        solo_back(n).take(36) == solo_back(0),
        crate::script::all_keep(
            solo_back(n).skip(36),
            seq![250u16, 300, 300, 350, 550],
            seq![Heading::Still, Heading::Still, Heading::Still, Heading::Still, Heading::Down],
        ),
        crate::script::pose_after(
            solo_back(n).skip(36),
            seq![250u16, 300, 300, 350, 550],
        ) == solo_back_pose(n),
    decreases n,
{
    let from = seq![250u16, 300, 300, 350, 550];
    let headings = seq![
        Heading::Still,
        Heading::Still,
        Heading::Still,
        Heading::Still,
        Heading::Down,
    ];
    if n > 0 {
        lemma_solo_back_keep((n - 1) as nat);
        let part = solo_back((n - 1) as nat).skip(36);
        let c5 = (550 - 25 * (n - 1)) as u16;
        crate::script::lemma_keep_turn(
            part,
            Message::SoloBack { c5 },
            seq![250, 300, 300, 350, c5],
            200,
            from,
            headings,
        );
        assert(solo_back(n).skip(36) =~= part.push(Act::Say(Message::SoloBack { c5 })).push(
            Act::Go(seq![250, 300, 300, 350, c5]),
        ).push(Act::Rest(200)));
        assert(solo_back(n).take(36) =~= solo_back((n - 1) as nat).take(36));
    } else {
        lemma_solo_forth_keep(11);
        assert(solo_back(n).skip(36) =~= Seq::empty());
        assert(solo_back(n).take(36) =~= solo_back(n));
    }
}

/// First the blade only rises in its solo, to 550, and the other joints stand.
pub proof fn law_solo_forth_headings(at: Seq<u16>, cosines: Seq<Single>)
    requires
        at.len() == 5,
        crate::cosines::are_cosines(cosines),
        crate::cosines::are_falling(cosines),
    ensures
        crate::script::section_heads(
            solo_acts(),
            3,
            36,
            at,
            seq![250u16, 300, 300, 350, 300],
            seq![250u16, 300, 300, 350, 550],
            cosines,
            seq![Heading::Still, Heading::Still, Heading::Still, Heading::Still, Heading::Up],
        ),
{
    let acts = solo_acts();
    let headings = seq![
        Heading::Still,
        Heading::Still,
        Heading::Still,
        Heading::Still,
        Heading::Up,
    ];
    lemma_solo_forth_keep(11);
    lemma_solo_back_keep(11);
    assert(solo_back(11).take(36) =~= solo_forth(11));
    assert(acts.take(36) =~= solo_back(11).take(36));
    assert(acts.subrange(3, 36) =~= acts.take(36).skip(3));
    assert(acts.take(3) =~= acts.take(36).take(3));
    let lead = solo_forth(0);
    let moved = lead.drop_last().drop_last();
    assert(lead =~= moved.push(Act::Go(seq![250u16, 300, 300, 350, 300])).push(lead.last()));
    lemma_pose_rested(moved, seq![250u16, 300, 300, 350, 300], lead.last()->Rest_0, at);
    crate::script::law_section(acts, 3, 36, at, cosines, headings);
}

/// Then the blade only falls in its solo, from 550, and the other joints stand.
pub proof fn law_solo_back_headings(at: Seq<u16>, cosines: Seq<Single>)
    requires
        at.len() == 5,
        crate::cosines::are_cosines(cosines),
        crate::cosines::are_falling(cosines),
    ensures
        crate::script::section_heads(
            solo_acts(),
            36,
            69,
            at,
            seq![250u16, 300, 300, 350, 550],
            seq![250u16, 300, 300, 350, 300],
            cosines,
            seq![Heading::Still, Heading::Still, Heading::Still, Heading::Still, Heading::Down],
        ),
{
    let acts = solo_acts();
    let headings = seq![
        Heading::Still,
        Heading::Still,
        Heading::Still,
        Heading::Still,
        Heading::Down,
    ];
    lemma_solo_forth_keep(11);
    lemma_solo_back_keep(11);
    assert(solo_back(11).take(36) =~= solo_forth(11));
    assert(acts.take(36) =~= solo_back(11).take(36));
    assert(acts.subrange(36, 69) =~= solo_back(11).skip(36));
    let lead = solo_forth(11);
    let moved = lead.drop_last().drop_last();
    assert(lead =~= moved.push(Act::Go(seq![250u16, 300, 300, 350, 550])).push(lead.last()));
    lemma_pose_rested(moved, seq![250u16, 300, 300, 350, 550], lead.last()->Rest_0, at);
    crate::script::law_section(acts, 36, 69, at, cosines, headings);
}

/// Turn `k` of the upright routine.
spec fn upright_turn(k: int) -> (Option<Message>, Seq<u16>, u32) {
    let c4 = (300 + 50 * k) as u16;
    let c5 = (450 - (300 + 50 * k) / 10) as u16;
    (Some(Message::UprightTurn { c4, c5 }), seq![480, 380, 200, c4, c5], 500)
}

proof fn lemma_upright_are_turns(n: nat)
    requires
        n <= 4,
    ensures
        upright_turns(n) == crate::script::turns(upright_turns(0), |k: int| upright_turn(k), n),
    decreases n,
{
    if n > 0 {
        lemma_upright_are_turns((n - 1) as nat);
        assert(upright_turns(n) =~= crate::script::turns(
            upright_turns(0),
            |k: int| upright_turn(k),
            n,
        ));
    }
}

/// The upright routine: it stands, it tilts, and then the wrist turns by 50 at each of four turns
/// from 300 on while the blade is at 450 less a tenth of it; at the end it goes back to where it
/// stood.
#[verifier::rlimit(40)]
#[verifier::spinoff_prover]
pub proof fn law_upright_course(at: Seq<u16>, cosines: Seq<Single>, k: int)
    requires
        at.len() == 5,
        crate::cosines::are_cosines(cosines),
        0 <= k < 4,
    ensures
        ({
            let plan = crate::script::play(upright_acts(), at, cosines);
            let n = cosines.len() as int;
            let whole = 6 * n + 2;
            let c4 = (300 + 50 * k) as u16;
            let c5 = (450 - (300 + 50 * k) / 10) as u16;
            let from = if k == 0 {
                seq![480u16, 350, 200, 300, 450]
            } else {
                seq![
                    480u16,
                    380,
                    200,
                    (300 + 50 * (k - 1)) as u16,
                    (450 - (300 + 50 * (k - 1)) / 10) as u16,
                ]
            };
            &&& plan.len() == 6 * whole + 6 * n + 1
            &&& crate::script::turn_at(
                plan,
                0,
                Message::UprightStart,
                at,
                seq![480, 250, 300, 300, 300],
                2000,
                cosines,
            )
            &&& crate::script::turn_at(
                plan,
                whole,
                Message::UprightTilt,
                seq![480u16, 250, 300, 300, 300],
                seq![480, 350, 200, 300, 450],
                1000,
                cosines,
            )
            &&& crate::script::turn_at(
                plan,
                2 * whole + k * whole,
                Message::UprightTurn { c4, c5 },
                from,
                seq![480, 380, 200, c4, c5],
                500,
                cosines,
            )
            &&& plan[6 * whole] == Step::Say(Message::UprightHome)
            &&& crate::script::goes(
                plan,
                6 * whole + 1,
                seq![480u16, 380, 200, 450, 405],
                seq![480, 250, 300, 300, 300],
                cosines,
            )
        }),
{
    let acts = upright_acts();
    let lead = upright_turns(0);
    let turn_of = |m: int| upright_turn(m);
    let n = cosines.len() as int;
    let whole = 6 * n + 2;
    lemma_upright_are_turns(4);
    let rest = seq![Act::Say(Message::UprightHome), Act::Go(seq![480, 250, 300, 300, 300])];
    let all = crate::script::turns(lead, turn_of, 4);
    assert(acts =~= all + rest);
    crate::script::lemma_turns_lead(lead, turn_of, 4);
    crate::script::lemma_before_acts(acts, at, cosines);
    assert(acts.take(6) =~= lead) by {
        assert(all.take(6) =~= acts.take(6));
    }
    assert(acts[0] == acts.take(6)[0]);
    assert(acts[1] == acts.take(6)[1]);
    assert(acts[2] == acts.take(6)[2]);
    crate::script::lemma_turn_at(
        acts,
        0,
        Message::UprightStart,
        seq![480, 250, 300, 300, 300],
        2000,
        at,
        cosines,
    );
    assert(acts[3] == acts.take(6)[3]);
    assert(acts[4] == acts.take(6)[4]);
    assert(acts[5] == acts.take(6)[5]);
    crate::script::lemma_turn_at(
        acts,
        3,
        Message::UprightTilt,
        seq![480, 350, 200, 300, 450],
        1000,
        at,
        cosines,
    );
    crate::script::law_turns(lead, turn_of, 4, k, rest, at, cosines);
    crate::script::law_turns(lead, turn_of, 4, 0, rest, at, cosines);
    assert(acts.take(all.len() as int) =~= all);
    let last = all.len() as int;
    assert(acts[last] == rest[0]);
    crate::script::law_act_at(acts, last, at, cosines);
    assert(acts[last + 1] == rest[1]);
    crate::script::law_act_at(acts, last + 1, at, cosines);
}

/// Turn `k` of the pillar routine.
spec fn pillar_turn(k: int) -> (Option<Message>, Seq<u16>, u32) {
    let c4 = (250 + 40 * k) as u16;
    let c5 = (450 - (250 + 40 * k) / 4) as u16;
    (Some(Message::PillarTurn { c4, c5 }), seq![480, 200, 300, c4, c5], 400)
}

proof fn lemma_pillar_are_turns(n: nat)
    requires
        n <= 6,
    ensures
        pillar_turns(n) == crate::script::turns(pillar_turns(0), |k: int| pillar_turn(k), n),
    decreases n,
{
    if n > 0 {
        lemma_pillar_are_turns((n - 1) as nat);
        assert(pillar_turns(n) =~= crate::script::turns(
            pillar_turns(0),
            |k: int| pillar_turn(k),
            n,
        ));
    }
}

/// The pillar routine: it stands, it tilts, and then the wrist turns by 40 at each of six turns
/// from 250 on while the blade is at 450 less a quarter of it.
#[verifier::rlimit(40)]
#[verifier::spinoff_prover]
pub proof fn law_pillar_course(at: Seq<u16>, cosines: Seq<Single>, k: int)
    requires
        at.len() == 5,
        crate::cosines::are_cosines(cosines),
        0 <= k < 6,
    ensures
        ({
            let plan = crate::script::play(pillar_acts(), at, cosines);
            let n = cosines.len() as int;
            let whole = 6 * n + 2;
            let c4 = (250 + 40 * k) as u16;
            let c5 = (450 - (250 + 40 * k) / 4) as u16;
            let from = if k == 0 {
                seq![480u16, 200, 300, 300, 450]
            } else {
                seq![
                    480u16,
                    200,
                    300,
                    (250 + 40 * (k - 1)) as u16,
                    (450 - (250 + 40 * (k - 1)) / 4) as u16,
                ]
            };
            &&& plan.len() == 8 * whole + 1
            &&& crate::script::turn_at(
                plan,
                0,
                Message::PillarStart,
                at,
                seq![480, 200, 300, 300, 300],
                1500,
                cosines,
            )
            &&& crate::script::turn_at(
                plan,
                whole,
                Message::PillarTilt,
                seq![480u16, 200, 300, 300, 300],
                seq![480, 200, 300, 300, 450],
                1000,
                cosines,
            )
            &&& crate::script::turn_at(
                plan,
                2 * whole + k * whole,
                Message::PillarTurn { c4, c5 },
                from,
                seq![480, 200, 300, c4, c5],
                400,
                cosines,
            )
            &&& plan[8 * whole] == Step::Say(Message::PillarDone)
        }),
{
    let acts = pillar_acts();
    let lead = pillar_turns(0);
    let turn_of = |m: int| pillar_turn(m);
    let n = cosines.len() as int;
    let whole = 6 * n + 2;
    lemma_pillar_are_turns(6);
    let rest = seq![Act::Say(Message::PillarDone)];
    let all = crate::script::turns(lead, turn_of, 6);
    assert(acts =~= all + rest);
    crate::script::lemma_turns_lead(lead, turn_of, 6);
    crate::script::lemma_before_acts(acts, at, cosines);
    assert(acts.take(6) =~= lead) by {
        assert(all.take(6) =~= acts.take(6));
    }
    assert(acts[0] == acts.take(6)[0]);
    assert(acts[1] == acts.take(6)[1]);
    assert(acts[2] == acts.take(6)[2]);
    crate::script::lemma_turn_at(
        acts,
        0,
        Message::PillarStart,
        seq![480, 200, 300, 300, 300],
        1500,
        at,
        cosines,
    );
    assert(acts[3] == acts.take(6)[3]);
    assert(acts[4] == acts.take(6)[4]);
    assert(acts[5] == acts.take(6)[5]);
    crate::script::lemma_turn_at(
        acts,
        3,
        Message::PillarTilt,
        seq![480, 200, 300, 300, 450],
        1000,
        at,
        cosines,
    );
    crate::script::law_turns(lead, turn_of, 6, k, rest, at, cosines);
    crate::script::law_turns(lead, turn_of, 6, 0, rest, at, cosines);
    assert(acts.take(all.len() as int) =~= all);
    let last = all.len() as int;
    assert(acts[last] == rest[0]);
    crate::script::law_act_at(acts, last, at, cosines);
}

/// Turn `k` of the stable routine.
spec fn stable_turn(k: int) -> (Option<Message>, Seq<u16>, u32) {
    let c4 = (200 + 60 * k) as u16;
    let c5 = (500 - (200 + 60 * k) / 2) as u16;
    (Some(Message::StableTurn { c4, c5 }), seq![250, 300, 300, c4, c5], 300)
}

proof fn lemma_stable_are_turns(n: nat)
    requires
        n <= 6,
    ensures
        stable_turns(n) == crate::script::turns(stable_turns(0), |k: int| stable_turn(k), n),
    decreases n,
{
    if n > 0 {
        lemma_stable_are_turns((n - 1) as nat);
        assert(stable_turns(n) =~= crate::script::turns(
            stable_turns(0),
            |k: int| stable_turn(k),
            n,
        ));
    }
}

/// The stable routine: it stands low, it tilts, and then the wrist turns by 60 at each of six
/// turns from 200 on while the blade is at 500 less half of it; at the end it goes back to where
/// it stood.
#[verifier::rlimit(40)]
#[verifier::spinoff_prover]
pub proof fn law_stable_course(at: Seq<u16>, cosines: Seq<Single>, k: int)
    requires
        at.len() == 5,
        crate::cosines::are_cosines(cosines),
        0 <= k < 6,
    ensures
        ({
            let plan = crate::script::play(stable_acts(), at, cosines);
            let n = cosines.len() as int;
            let whole = 6 * n + 2;
            let c4 = (200 + 60 * k) as u16;
            let c5 = (500 - (200 + 60 * k) / 2) as u16;
            let from = if k == 0 {
                seq![250u16, 300, 300, 300, 500]
            } else {
                seq![
                    250u16,
                    300,
                    300,
                    (200 + 60 * (k - 1)) as u16,
                    (500 - (200 + 60 * (k - 1)) / 2) as u16,
                ]
            };
            &&& plan.len() == 8 * whole + 6 * n + 1
            &&& crate::script::turn_at(
                plan,
                0,
                Message::StableStart,
                at,
                seq![250, 300, 300, 300, 300],
                1500,
                cosines,
            )
            &&& crate::script::turn_at(
                plan,
                whole,
                Message::StableTilt,
                seq![250u16, 300, 300, 300, 300],
                seq![250, 300, 300, 300, 500],
                1000,
                cosines,
            )
            &&& crate::script::turn_at(
                plan,
                2 * whole + k * whole,
                Message::StableTurn { c4, c5 },
                from,
                seq![250, 300, 300, c4, c5],
                300,
                cosines,
            )
            &&& crate::script::goes(
                plan,
                8 * whole,
                seq![250u16, 300, 300, 500, 250],
                seq![250, 300, 300, 300, 300],
                cosines,
            )
            &&& plan[8 * whole + 6 * n] == Step::Say(Message::StableDone)
        }),
{
    let acts = stable_acts();
    let lead = stable_turns(0);
    let turn_of = |m: int| stable_turn(m);
    let n = cosines.len() as int;
    let whole = 6 * n + 2;
    lemma_stable_are_turns(6);
    let rest = seq![Act::Go(seq![250, 300, 300, 300, 300]), Act::Say(Message::StableDone)];
    let all = crate::script::turns(lead, turn_of, 6);
    assert(acts =~= all + rest);
    crate::script::lemma_turns_lead(lead, turn_of, 6);
    crate::script::lemma_before_acts(acts, at, cosines);
    assert(acts.take(6) =~= lead) by {
        assert(all.take(6) =~= acts.take(6));
    }
    assert(acts[0] == acts.take(6)[0]);
    assert(acts[1] == acts.take(6)[1]);
    assert(acts[2] == acts.take(6)[2]);
    crate::script::lemma_turn_at(
        acts,
        0,
        Message::StableStart,
        seq![250, 300, 300, 300, 300],
        1500,
        at,
        cosines,
    );
    assert(acts[3] == acts.take(6)[3]);
    assert(acts[4] == acts.take(6)[4]);
    assert(acts[5] == acts.take(6)[5]);
    crate::script::lemma_turn_at(
        acts,
        3,
        Message::StableTilt,
        seq![250, 300, 300, 300, 500],
        1000,
        at,
        cosines,
    );
    crate::script::law_turns(lead, turn_of, 6, k, rest, at, cosines);
    crate::script::law_turns(lead, turn_of, 6, 0, rest, at, cosines);
    assert(acts.take(all.len() as int) =~= all);
    let last = all.len() as int;
    assert(acts[last] == rest[0]);
    crate::script::law_act_at(acts, last, at, cosines);
    assert(acts[last + 1] == rest[1]);
    crate::script::law_act_at(acts, last + 1, at, cosines);
}

/// Turn `k` of the peel routine.
spec fn peel_turn(k: int) -> (Option<Message>, Seq<u16>, u32) {
    let c2 = (250 + 20 * k) as u16;
    let c4 = (250 + 40 * k) as u16;
    let c5 = (480 - 25 * k) as u16;
    (Some(Message::PeelTurn { c2, c4, c5 }), seq![250, c2, 200, c4, c5], 400)
}

proof fn lemma_peel_are_turns(n: nat)
    requires
        n <= 6,
    ensures
        peel_turns(n) == crate::script::turns(peel_turns(0), |k: int| peel_turn(k), n),
    decreases n,
{
    if n > 0 {
        lemma_peel_are_turns((n - 1) as nat);
        assert(peel_turns(n) =~= crate::script::turns(peel_turns(0), |k: int| peel_turn(k), n));
    }
}

/// The peeling routine: it goes to the top of the apple, and then at each of six stages the elbow
/// goes on by 20, the wrist by 40 and the blade back by 25.
#[verifier::rlimit(40)]
#[verifier::spinoff_prover]
pub proof fn law_peel_course(at: Seq<u16>, cosines: Seq<Single>, k: int)
    requires
        at.len() == 5,
        crate::cosines::are_cosines(cosines),
        0 <= k < 6,
    ensures
        ({
            let plan = crate::script::play(peel_acts(), at, cosines);
            let n = cosines.len() as int;
            let whole = 6 * n + 2;
            let c2 = (250 + 20 * k) as u16;
            let c4 = (250 + 40 * k) as u16;
            let c5 = (480 - 25 * k) as u16;
            let from = if k == 0 {
                seq![250u16, 250, 200, 250, 480]
            } else {
                seq![
                    250u16,
                    (250 + 20 * (k - 1)) as u16,
                    200,
                    (250 + 40 * (k - 1)) as u16,
                    (480 - 25 * (k - 1)) as u16,
                ]
            };
            &&& plan.len() == 7 * whole + 1
            &&& crate::script::turn_at(
                plan,
                0,
                Message::PeelStart,
                at,
                seq![250, 250, 200, 250, 480],
                1000,
                cosines,
            )
            &&& crate::script::turn_at(
                plan,
                whole + k * whole,
                Message::PeelTurn { c2, c4, c5 },
                from,
                seq![250, c2, 200, c4, c5],
                400,
                cosines,
            )
            &&& plan[7 * whole] == Step::Say(Message::PeelDone)
        }),
{
    let acts = peel_acts();
    let lead = peel_turns(0);
    let turn_of = |m: int| peel_turn(m);
    let n = cosines.len() as int;
    let whole = 6 * n + 2;
    lemma_peel_are_turns(6);
    let rest = seq![Act::Say(Message::PeelDone)];
    let all = crate::script::turns(lead, turn_of, 6);
    assert(acts =~= all + rest);
    crate::script::lemma_turns_lead(lead, turn_of, 6);
    crate::script::lemma_before_acts(acts, at, cosines);
    assert(acts.take(3) =~= lead) by {
        assert(all.take(3) =~= acts.take(3));
    }
    assert(acts[0] == acts.take(3)[0]);
    assert(acts[1] == acts.take(3)[1]);
    assert(acts[2] == acts.take(3)[2]);
    crate::script::lemma_turn_at(
        acts,
        0,
        Message::PeelStart,
        seq![250, 250, 200, 250, 480],
        1000,
        at,
        cosines,
    );
    crate::script::law_turns(lead, turn_of, 6, k, rest, at, cosines);
    crate::script::law_turns(lead, turn_of, 6, 0, rest, at, cosines);
    assert(acts.take(all.len() as int) =~= all);
    let last = all.len() as int;
    assert(acts[last] == rest[0]);
    crate::script::law_act_at(acts, last, at, cosines);
}

/// Turn `k` of the cool routine.
spec fn cool_turn(k: int) -> (Option<Message>, Seq<u16>, u32) {
    let c2 = (250 + 15 * (k + 1)) as u16;
    let c4 = (250 + 30 * (k + 1)) as u16;
    let c5 = (480 - 20 * (k + 1)) as u16;
    (None, seq![250, c2, 200, c4, c5], 550)
}

proof fn lemma_cool_are_turns(n: nat)
    requires
        n <= 8,
    ensures
        cool_turns(n) == crate::script::turns(cool_turns(0), |k: int| cool_turn(k), n),
    decreases n,
{
    if n > 0 {
        lemma_cool_are_turns((n - 1) as nat);
        assert(cool_turns(n) =~= crate::script::turns(cool_turns(0), |k: int| cool_turn(k), n));
    }
}

/// The cooler peeling routine: it goes to the top of the apple, and then at each of eight stages
/// the elbow goes on by 15, the wrist by 30 and the blade back by 20; at the end it goes back up.
#[verifier::rlimit(40)]
#[verifier::spinoff_prover]
pub proof fn law_cool_course(at: Seq<u16>, cosines: Seq<Single>, k: int)
    requires
        at.len() == 5,
        crate::cosines::are_cosines(cosines),
        0 <= k < 8,
    ensures
        ({
            let plan = crate::script::play(cool_acts(), at, cosines);
            let n = cosines.len() as int;
            let whole = 6 * n + 2;
            let turn = 6 * n + 1;
            let c2 = (250 + 15 * (k + 1)) as u16;
            let c4 = (250 + 30 * (k + 1)) as u16;
            let c5 = (480 - 20 * (k + 1)) as u16;
            let from = if k == 0 {
                seq![250u16, 250, 200, 250, 480]
            } else {
                seq![
                    250u16,
                    (250 + 15 * k) as u16,
                    200,
                    (250 + 30 * k) as u16,
                    (480 - 20 * k) as u16,
                ]
            };
            &&& plan.len() == whole + 8 * turn + 6 * n + 1
            &&& crate::script::turn_at(
                plan,
                0,
                Message::CoolStart,
                at,
                seq![250, 250, 200, 250, 480],
                1000,
                cosines,
            )
            &&& crate::script::goes(
                plan,
                whole + k * turn,
                from,
                seq![250, c2, 200, c4, c5],
                cosines,
            )
            &&& plan[whole + k * turn + 6 * n] == (Step::Pause { ms: 550 })
            &&& plan[whole + 8 * turn] == Step::Say(Message::CoolDone)
            &&& crate::script::goes(
                plan,
                whole + 8 * turn + 1,
                seq![250u16, 370, 200, 490, 320],
                seq![250, 250, 300, 300, 300],
                cosines,
            )
        }),
{
    let acts = cool_acts();
    let lead = cool_turns(0);
    let turn_of = |m: int| cool_turn(m);
    let n = cosines.len() as int;
    let whole = 6 * n + 2;
    lemma_cool_are_turns(8);
    let rest = seq![Act::Say(Message::CoolDone), Act::Go(seq![250, 250, 300, 300, 300])];
    let all = crate::script::turns(lead, turn_of, 8);
    assert(acts =~= all + rest);
    crate::script::lemma_turns_lead(lead, turn_of, 8);
    crate::script::lemma_before_acts(acts, at, cosines);
    assert(acts.take(3) =~= lead) by {
        assert(all.take(3) =~= acts.take(3));
    }
    assert(acts[0] == acts.take(3)[0]);
    assert(acts[1] == acts.take(3)[1]);
    assert(acts[2] == acts.take(3)[2]);
    crate::script::lemma_turn_at(
        acts,
        0,
        Message::CoolStart,
        seq![250, 250, 200, 250, 480],
        1000,
        at,
        cosines,
    );
    crate::script::law_turns(lead, turn_of, 8, k, rest, at, cosines);
    crate::script::law_turns(lead, turn_of, 8, 0, rest, at, cosines);
    assert(acts.take(all.len() as int) =~= all);
    let last = all.len() as int;
    assert(acts[last] == rest[0]);
    crate::script::law_act_at(acts, last, at, cosines);
    assert(acts[last + 1] == rest[1]);
    crate::script::law_act_at(acts, last + 1, at, cosines);
}

/// Turn `k` of the blade on its way forth.
spec fn forth_turn(k: int) -> (Option<Message>, Seq<u16>, u32) {
    let c5 = (300 + 25 * k) as u16;
    (Some(Message::SoloForth { c5 }), seq![250, 300, 300, 350, c5], 200)
}

/// Turn `k` of the blade on its way back.
spec fn back_turn(k: int) -> (Option<Message>, Seq<u16>, u32) {
    let c5 = (550 - 25 * k) as u16;
    (Some(Message::SoloBack { c5 }), seq![250, 300, 300, 350, c5], 200)
}

proof fn lemma_forth_are_turns(n: nat)
    ensures
        solo_forth(n) == crate::script::turns(solo_forth(0), |k: int| forth_turn(k), n),
        solo_forth(n).len() == 3 + 3 * n,
    decreases n,
{
    if n > 0 {
        lemma_forth_are_turns((n - 1) as nat);
        assert(solo_forth(n) =~= crate::script::turns(solo_forth(0), |k: int| forth_turn(k), n));
    }
}

proof fn lemma_back_are_turns(n: nat)
    ensures
        solo_back(n) == crate::script::turns(solo_back(0), |k: int| back_turn(k), n),
    decreases n,
{
    if n > 0 {
        lemma_back_are_turns((n - 1) as nat);
        assert(solo_back(n) =~= crate::script::turns(solo_back(0), |k: int| back_turn(k), n));
    }
}

/// The solo of the blade: the other joints take their place, and then the blade goes forth from
/// 300 to 550 and back to 300, by 25 at each of eleven turns either way.
#[verifier::rlimit(40)]
#[verifier::spinoff_prover]
pub proof fn law_solo_course(at: Seq<u16>, cosines: Seq<Single>, k: int)
    requires
        at.len() == 5,
        crate::cosines::are_cosines(cosines),
        0 <= k < 11,
    ensures
        ({
            let plan = crate::script::play(solo_acts(), at, cosines);
            let n = cosines.len() as int;
            let whole = 6 * n + 2;
            let forth = (300 + 25 * k) as u16;
            let back = (550 - 25 * k) as u16;
            let forth_before: u16 = if k == 0 {
                300
            } else {
                (300 + 25 * (k - 1)) as u16
            };
            let back_before: u16 = if k == 0 {
                550
            } else {
                (550 - 25 * (k - 1)) as u16
            };
            &&& plan.len() == 23 * whole + 1
            &&& crate::script::turn_at(
                plan,
                0,
                Message::SoloStart,
                at,
                seq![250, 300, 300, 350, 300],
                1000,
                cosines,
            )
            &&& crate::script::turn_at(
                plan,
                whole + k * whole,
                Message::SoloForth { c5: forth },
                seq![250, 300, 300, 350, forth_before],
                seq![250, 300, 300, 350, forth],
                200,
                cosines,
            )
            &&& crate::script::turn_at(
                plan,
                12 * whole + k * whole,
                Message::SoloBack { c5: back },
                seq![250, 300, 300, 350, back_before],
                seq![250, 300, 300, 350, back],
                200,
                cosines,
            )
            &&& plan[23 * whole] == Step::Say(Message::SoloDone)
        }),
{
    let acts = solo_acts();
    let lead = solo_forth(0);
    let forth_of = |m: int| forth_turn(m);
    let back_of = |m: int| back_turn(m);
    let n = cosines.len() as int;
    let whole = 6 * n + 2;
    lemma_forth_are_turns(11);
    lemma_back_are_turns(11);
    let forth = solo_forth(11);
    let all = crate::script::turns(forth, back_of, 11);
    let rest = seq![Act::Say(Message::SoloDone)];
    assert(acts =~= all + rest);
    crate::script::lemma_turns_lead(forth, back_of, 11);
    crate::script::lemma_turns_lead(lead, forth_of, 11);
    crate::script::lemma_before_acts(acts, at, cosines);
    assert(acts.take(36) =~= forth) by {
        assert(all.take(36) =~= acts.take(36));
    }
    assert(acts.take(3) =~= lead) by {
        assert(forth.take(3) =~= acts.take(36).take(3));
        assert(acts.take(36).take(3) =~= acts.take(3));
    }
    assert(acts[0] == acts.take(3)[0]);
    assert(acts[1] == acts.take(3)[1]);
    assert(acts[2] == acts.take(3)[2]);
    crate::script::lemma_turn_at(
        acts,
        0,
        Message::SoloStart,
        seq![250, 300, 300, 350, 300],
        1000,
        at,
        cosines,
    );
    assert(acts =~= forth + acts.skip(36));
    crate::script::law_turns(lead, forth_of, 11, k, acts.skip(36), at, cosines);
    crate::script::law_turns(forth, back_of, 11, k, rest, at, cosines);
    assert(acts.take(all.len() as int) =~= all);
    assert(acts[all.len() as int] == rest[0]);
    crate::script::law_act_at(acts, all.len() as int, at, cosines);
}

/// The spiral practice: at each of the first four of its five stages the joints go on by 10, 20,
/// 10 and 50, and at the fifth they go back.
#[verifier::rlimit(60)]
#[verifier::spinoff_prover]
pub proof fn law_spiral_course(at: Seq<u16>, cosines: Seq<Single>, k: int)
    requires
        at.len() == 4,
        crate::cosines::are_cosines(cosines),
        0 <= k < 4,
    ensures
        ({
            let plan = crate::script::play(spiral_acts(), at, cosines);
            let n = cosines.len() as int;
            let whole = 5 * n + 4;
            let c1 = (450 + 10 * k) as u16;
            let c2 = (400 + 20 * k) as u16;
            let c3 = (300 + 10 * k) as u16;
            let c4 = (300 + 50 * k) as u16;
            let from = if k == 0 {
                at
            } else {
                seq![(c1 - 10) as u16, (c2 - 20) as u16, (c3 - 10) as u16, (c4 - 50) as u16]
            };
            &&& plan.len() == 5 * whole + 2
            &&& plan[0] == Step::Say(Message::SpiralStart)
            &&& crate::script::turn_at(
                plan,
                1 + k * whole,
                Message::SpiralStage { stage: (k + 1) as u16, c1, c2, c3, c4 },
                from,
                seq![c1, c2, c3, c4],
                200,
                cosines,
            )
            &&& crate::script::turn_at(
                plan,
                1 + 4 * whole,
                Message::SpiralStage { stage: 5, c1: 450, c2: 300, c3: 300, c4: 300 },
                seq![480u16, 460, 330, 450],
                seq![450, 300, 300, 300],
                200,
                cosines,
            )
            &&& plan[1 + 5 * whole] == Step::Say(Message::SpiralDone)
        }),
{
    let acts = spiral_acts();
    let n = cosines.len() as int;
    let whole = 5 * n + 4;
    crate::script::lemma_before_acts(acts, at, cosines);
    crate::script::law_act_at(acts, 0, at, cosines);
    crate::script::lemma_turn_at(
        acts,
        1,
        Message::SpiralStage { stage: 1, c1: 450, c2: 400, c3: 300, c4: 300 },
        seq![450, 400, 300, 300],
        200,
        at,
        cosines,
    );
    crate::script::lemma_turn_at(
        acts,
        4,
        Message::SpiralStage { stage: 2, c1: 460, c2: 420, c3: 310, c4: 350 },
        seq![460, 420, 310, 350],
        200,
        at,
        cosines,
    );
    crate::script::lemma_turn_at(
        acts,
        7,
        Message::SpiralStage { stage: 3, c1: 470, c2: 440, c3: 320, c4: 400 },
        seq![470, 440, 320, 400],
        200,
        at,
        cosines,
    );
    crate::script::lemma_turn_at(
        acts,
        10,
        Message::SpiralStage { stage: 4, c1: 480, c2: 460, c3: 330, c4: 450 },
        seq![480, 460, 330, 450],
        200,
        at,
        cosines,
    );
    crate::script::lemma_turn_at(
        acts,
        13,
        Message::SpiralStage { stage: 5, c1: 450, c2: 300, c3: 300, c4: 300 },
        seq![450, 300, 300, 300],
        200,
        at,
        cosines,
    );
    crate::script::law_act_at(acts, 16, at, cosines);
    assert(0 * whole == 0 && 1 * whole == whole && 2 * whole == whole + whole && 3 * whole == whole
        + whole + whole);
    assert(k == 0 || k == 1 || k == 2 || k == 3);
}

/// The apple routine, up to the grip: it makes room, opens the gripper over the apple and closes
/// it.
#[verifier::rlimit(60)]
#[verifier::spinoff_prover]
pub proof fn law_apple_course(at: Seq<u16>, cosines: Seq<Single>)
    requires
        at.len() == 4,
        crate::cosines::are_cosines(cosines),
    ensures
        ({
            let plan = crate::script::play(apple_acts(), at, cosines);
            let n = cosines.len() as int;
            let whole = 5 * n + 4;
            &&& plan[0] == Step::Say(Message::AppleStart)
            &&& crate::script::turn_at(
                plan,
                1,
                Message::AppleStage { stage: 1 },
                at,
                seq![420, 300, 300, 300],
                1000,
                cosines,
            )
            &&& crate::script::turn_at(
                plan,
                1 + whole,
                Message::AppleStage { stage: 2 },
                seq![420u16, 300, 300, 300],
                seq![450, 400, 300, 420],
                1500,
                cosines,
            )
            &&& crate::script::turn_at(
                plan,
                1 + 2 * whole,
                Message::AppleStage { stage: 3 },
                seq![450u16, 400, 300, 420],
                seq![450, 400, 300, 250],
                2000,
                cosines,
            )
        }),
{
    let acts = apple_acts();
    crate::script::lemma_before_acts(acts, at, cosines);
    crate::script::law_act_at(acts, 0, at, cosines);
    crate::script::lemma_turn_at(
        acts,
        1,
        Message::AppleStage { stage: 1 },
        seq![420, 300, 300, 300],
        1000,
        at,
        cosines,
    );
    crate::script::lemma_turn_at(
        acts,
        4,
        Message::AppleStage { stage: 2 },
        seq![450, 400, 300, 420],
        1500,
        at,
        cosines,
    );
    crate::script::lemma_turn_at(
        acts,
        7,
        Message::AppleStage { stage: 3 },
        seq![450, 400, 300, 250],
        2000,
        at,
        cosines,
    );
}

/// Where the plan of the apple routine is once the apple is gripped.
#[verifier::spinoff_prover]
proof fn lemma_apple_gripped(at: Seq<u16>, cosines: Seq<Single>)
    requires
        at.len() == 4,
        crate::cosines::are_cosines(cosines),
    ensures
        crate::script::play(apple_acts().take(10), at, cosines).len() == 15 * cosines.len() + 13,
        crate::script::pose_after(apple_acts().take(10), at) == seq![450u16, 400, 300, 250],
{
    let acts = apple_acts();
    crate::script::lemma_before_acts(acts, at, cosines);
    crate::script::law_act_at(acts, 0, at, cosines);
    crate::script::lemma_turn_at(
        acts,
        1,
        Message::AppleStage { stage: 1 },
        seq![420, 300, 300, 300],
        1000,
        at,
        cosines,
    );
    crate::script::lemma_turn_at(
        acts,
        4,
        Message::AppleStage { stage: 2 },
        seq![450, 400, 300, 420],
        1500,
        at,
        cosines,
    );
    crate::script::lemma_turn_at(
        acts,
        7,
        Message::AppleStage { stage: 3 },
        seq![450, 400, 300, 250],
        2000,
        at,
        cosines,
    );
}

/// The apple routine, from the grip on: it peels in three stages with the gripper closed, and goes
/// back.
#[verifier::rlimit(60)]
#[verifier::spinoff_prover]
pub proof fn law_apple_peeling(at: Seq<u16>, cosines: Seq<Single>)
    requires
        at.len() == 4,
        crate::cosines::are_cosines(cosines),
    ensures
        ({
            let plan = crate::script::play(apple_acts(), at, cosines);
            let n = cosines.len() as int;
            let whole = 5 * n + 4;
            &&& plan.len() == 7 * whole - 1
            &&& crate::script::turn_at(
                plan,
                1 + 3 * whole,
                Message::AppleStage { stage: 4 },
                seq![450u16, 400, 300, 250],
                seq![460, 420, 310, 250],
                300,
                cosines,
            )
            &&& crate::script::goes(
                plan,
                1 + 4 * whole,
                seq![460u16, 420, 310, 250],
                seq![470, 440, 320, 250],
                cosines,
            )
            &&& plan[5 * whole - 1] == (Step::Pause { ms: 300 })
            &&& crate::script::goes(
                plan,
                5 * whole,
                seq![470u16, 440, 320, 250],
                seq![480, 460, 330, 250],
                cosines,
            )
            &&& plan[6 * whole - 2] == (Step::Pause { ms: 300 })
            &&& plan[6 * whole - 1] == Step::Say(Message::AppleStage { stage: 5 })
            &&& crate::script::goes(
                plan,
                6 * whole,
                seq![480u16, 460, 330, 250],
                seq![420, 300, 300, 300],
                cosines,
            )
            &&& plan[7 * whole - 2] == Step::Say(Message::AppleDone)
        }),
{
    let acts = apple_acts();
    lemma_apple_gripped(at, cosines);
    crate::script::lemma_before_acts(acts, at, cosines);
    crate::script::lemma_turn_at(
        acts,
        10,
        Message::AppleStage { stage: 4 },
        seq![460, 420, 310, 250],
        300,
        at,
        cosines,
    );
    crate::script::law_act_at(acts, 13, at, cosines);
    crate::script::law_act_at(acts, 14, at, cosines);
    crate::script::law_act_at(acts, 15, at, cosines);
    crate::script::law_act_at(acts, 16, at, cosines);
    crate::script::law_act_at(acts, 17, at, cosines);
    crate::script::law_act_at(acts, 18, at, cosines);
    crate::script::law_act_at(acts, 19, at, cosines);
}

} // verus!
