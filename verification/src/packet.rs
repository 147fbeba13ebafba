//! Command packets that come in over the air.
//!
//! A packet is a mark, a motor, a horizontal and a vertical angle, and a checksum, one byte each.
//! What follows is not looked at. The checksum is reported and not tested.

use vstd::prelude::*;

use crate::cosines::Cosines;
use crate::glide::{move_smoothly, Heading};
use crate::pulse::{angle_to_pulse, calculate_pulse, pulse_report};
use crate::single::Single;
use crate::step::{Channel, Message, Step};

verus! {

/// The first byte of every packet.
pub const PACKET_MARK: u8 = 0xAA;

/// The motor that stands for the way home.
pub const HOME_ID: u8 = 0xFF;

/// The number of bytes that a packet has at least.
pub const PACKET_LEN: usize = 5;

/// Whether `packet` is a command.
pub open spec fn is_command(packet: Seq<u8>) -> bool {
    packet.len() >= PACKET_LEN && packet[0] == PACKET_MARK
}

/// Whether a motor goes by the vertical angle.
pub open spec fn is_vertical(motor_id: u8) -> bool {
    1 <= motor_id <= 3
}

/// The pulse that a packet asks for. The base, and the motors from 4 on, go by the horizontal
/// angle, with two and a half for each degree; the others go by the vertical one.
pub open spec fn asked_pulse(motor_id: u8, x_angle: u8, y_angle: u8) -> u16 {
    if is_vertical(motor_id) {
        crate::pulse::vertical_pulse(y_angle as u32) as u16
    } else {
        (150 + 5 * x_angle as int / 2) as u16
    }
}

/// The output that a motor is connected to.
pub open spec fn motor_output(motor_id: u8) -> Option<Channel> {
    match motor_id {
        0 => Some(Channel::C0),
        1 => Some(Channel::C1),
        2 => Some(Channel::C2),
        3 => Some(Channel::C3),
        4 => Some(Channel::C4),
        5 => Some(Channel::C5),
        _ => None,
    }
}

/// The messages as steps.
pub open spec fn said(messages: Seq<Message>) -> Seq<Step> {
    messages.map_values(|m: Message| Step::Say(m))
}

/// What is reported while the pulse of a packet is found.
pub open spec fn asking(motor_id: u8, y_angle: u8) -> Seq<Step> {
    if is_vertical(motor_id) {
        said(crate::pulse::pulse_messages(y_angle as u32))
    } else {
        Seq::empty()
    }
}

/// The plan of a packet for a single motor.
pub open spec fn drive_plan(motor_id: u8, pulse: u16) -> Seq<Step> {
    seq![Step::Say(Message::PulseChosen { count: pulse })] + (match motor_output(motor_id) {
        Some(channel) => seq![
            Step::TryWrite { channel, on: 0, off: pulse },
            Step::Pause { ms: 10 },
        ],
        None => seq![Step::Say(Message::UnknownMotor { motor_id })],
    })
}

/// The joints in the order in which they go home.
pub open spec fn home_channels() -> Seq<Channel> {
    seq![Channel::C1, Channel::C2, Channel::C0]
}

/// Where they go: 90, 133 and 152 degrees.
pub open spec fn home_pulses() -> Seq<u16> {
    seq![375u16, 482, 530]
}

/// The way of one joint home, and a rest.
pub open spec fn home_leg(positions: Seq<u16>, cosines: Seq<Single>, i: int) -> Seq<Step> {
    crate::glide::glide(
        seq![home_channels()[i]],
        seq![positions[i]],
        seq![home_pulses()[i]],
        cosines,
        12,
    ).push(Step::Pause { ms: 50 })
}

/// The way home: one joint after the other.
pub open spec fn home_plan(positions: Seq<u16>, cosines: Seq<Single>) -> Seq<Step> {
    home_leg(positions, cosines, 0) + home_leg(positions, cosines, 1) + home_leg(
        positions,
        cosines,
        2,
    )
}

/// The positions at home. The fourth one is not part of it.
pub open spec fn home_positions(positions: Seq<u16>) -> Seq<u16> {
    home_pulses().push(positions[3])
}

/// The plan of a packet, from the given positions.
pub open spec fn packet_plan(
    packet: Seq<u8>,
    positions: Seq<u16>,
    cosines: Seq<Single>,
) -> Seq<Step> {
    if !is_command(packet) {
        Seq::empty()
    } else {
        let received = Step::Say(
            Message::Received {
                motor_id: packet[1],
                x_angle: packet[2],
                y_angle: packet[3],
                checksum: packet[4],
            },
        );
        seq![received] + asking(packet[1], packet[3]) + (if packet[1] == HOME_ID {
            home_plan(positions, cosines)
        } else {
            drive_plan(packet[1], asked_pulse(packet[1], packet[2], packet[3]))
        })
    }
}

/// The positions after a packet.
pub open spec fn positions_after(packet: Seq<u8>, positions: Seq<u16>) -> Seq<u16> {
    if is_command(packet) && packet[1] == HOME_ID {
        home_positions(positions)
    } else {
        positions
    }
}

/// The output that a motor is connected to.
pub fn motor_channel(motor_id: u8) -> (c: Option<Channel>)
    ensures
        c == motor_output(motor_id),
        motor_id <= 5 ==> c == Some(
            seq![
                Channel::C0,
                Channel::C1,
                Channel::C2,
                Channel::C3,
                Channel::C4,
                Channel::C5,
            ][motor_id as int],
        ),
        motor_id > 5 ==> c is None,
{
    match motor_id {
        0 => Some(Channel::C0),
        1 => Some(Channel::C1),
        2 => Some(Channel::C2),
        3 => Some(Channel::C3),
        4 => Some(Channel::C4),
        5 => Some(Channel::C5),
        _ => None,
    }
}

/// The pulse that a packet asks for.
pub fn packet_pulse(motor_id: u8, x_angle: u8, y_angle: u8) -> (pulse: u16)
    ensures
        pulse == asked_pulse(motor_id, x_angle, y_angle),
        motor_id == 0 || motor_id >= 4 ==> pulse == 150 + 5 * x_angle as int / 2,
        1 <= motor_id <= 3 && y_angle <= 89 ==> pulse == 150 + 5 * y_angle,
        1 <= motor_id <= 3 && y_angle > 89 ==> pulse == 595,
{
    if motor_id == 0 || motor_id >= 4 {
        proof {
            crate::pulse::law_whole_degrees(x_angle as nat);
        }
        angle_to_pulse(Single::ratio(x_angle as u32, 1))
    } else {
        calculate_pulse(y_angle as u32) as u16
    }
}

/// Brings the arm home.
pub fn go_home(current_positions: &mut [u16; 4], cosines: &Cosines) -> (r: Vec<Step>)
    requires
        cosines@.len() == crate::glide::POWER_STEPS,
    ensures
        final(current_positions)@ == home_positions(old(current_positions)@),
        r@ == home_plan(old(current_positions)@, cosines@),
        crate::glide::on_the_way(r@, home_channels(), old(current_positions)@, home_pulses()),
{
    let home_angles: [u32; 3] = [90, 133, 152];
    let channels: [Channel; 3] = [Channel::C1, Channel::C2, Channel::C0];
    let ghost starts = current_positions@;
    let ghost legs = seq![
        home_leg(starts, cosines@, 0),
        home_leg(starts, cosines@, 1),
        home_leg(starts, cosines@, 2),
    ];
    let mut r: Vec<Step> = Vec::new();
    let mut i: usize = 0;
    while i < 3
        invariant
            i <= 3,
            cosines@.len() == crate::glide::POWER_STEPS,
            home_angles@ == seq![90u32, 133, 152],
            channels@ == home_channels(),
            starts.len() == 4,
            forall|j: int| 0 <= j < i ==> #[trigger] current_positions@[j] == home_pulses()[j],
            forall|j: int| i <= j < 4 ==> #[trigger] current_positions@[j] == starts[j],
            legs == seq![
                home_leg(starts, cosines@, 0),
                home_leg(starts, cosines@, 1),
                home_leg(starts, cosines@, 2),
            ],
            r@ == legs.take(i as int).flatten(),
        decreases 3 - i,
    {
        proof {
            crate::pulse::law_whole_degrees(home_angles@[i as int] as nat);
            assert(legs.take(i + 1) =~= legs.take(i as int).push(legs[i as int]));
            legs.take(i as int).lemma_flatten_push(legs[i as int]);
        }
        let target_pulse: u16 = angle_to_pulse(Single::ratio(home_angles[i], 1));
        let mut position: u16 = current_positions[i];
        let mut moves: Vec<Step> = move_smoothly(channels[i], &mut position, target_pulse, cosines);
        current_positions[i] = position;
        r.append(&mut moves);
        r.push(Step::Pause { ms: 50 });
        assert(r@ =~= legs.take(i as int).flatten() + legs[i as int]);
        i = i + 1;
    }
    assert(current_positions@ =~= home_positions(starts));
    proof {
        reveal_with_fuel(Seq::flatten, 4);
        assert(legs.take(3) =~= legs);
        assert(legs.drop_first().drop_first().drop_first() =~= Seq::empty());
        assert(r@ =~= home_plan(starts, cosines@));
        use_type_invariant(cosines);
        law_home_between(starts, cosines@);
    }
    r
}

/// Answers a packet.
pub fn handle_packet(
    packet: &[u8],
    current_positions: &mut [u16; 4],
    cosines: &Cosines,
) -> (r: Vec<Step>)
    requires
        cosines@.len() == crate::glide::POWER_STEPS,
    ensures
        r@ == packet_plan(packet@, old(current_positions)@, cosines@),
        final(current_positions)@ == positions_after(packet@, old(current_positions)@),
{
    let mut r: Vec<Step> = Vec::new();
    if packet.len() < PACKET_LEN || packet[0] != PACKET_MARK {
        return r;
    }
    let motor_id: u8 = packet[1];
    let x_angle: u8 = packet[2];
    let y_angle: u8 = packet[3];
    let checksum: u8 = packet[4];
    r.push(Step::Say(Message::Received { motor_id, x_angle, y_angle, checksum }));
    let ghost head = r@;
    if 1 <= motor_id && motor_id <= 3 {
        let lines: Vec<Message> = pulse_report(y_angle as u32);
        let mut i: usize = 0;
        while i < lines.len()
            invariant
                i <= lines@.len(),
                r@ == head + said(lines@.take(i as int)),
            decreases lines@.len() - i,
        {
            r.push(Step::Say(lines[i]));
            i = i + 1;
            assert(r@ =~= head + said(lines@.take(i as int)));
        }
        assert(lines@.take(i as int) =~= lines@);
    }
    assert(r@ =~= head + asking(motor_id, y_angle));
    let ghost asked = r@;
    let pulse: u16 = packet_pulse(motor_id, x_angle, y_angle);
    if motor_id == HOME_ID {
        let mut moves: Vec<Step> = go_home(current_positions, cosines);
        r.append(&mut moves);
    } else {
        r.push(Step::Say(Message::PulseChosen { count: pulse }));
        match motor_channel(motor_id) {
            Some(channel) => {
                r.push(Step::TryWrite { channel, on: 0, off: pulse });
                r.push(Step::Pause { ms: 10 });
            },
            None => {
                r.push(Step::Say(Message::UnknownMotor { motor_id }));
            },
        }
        assert(r@ =~= asked + drive_plan(motor_id, pulse));
    }
    r
}

/// What is not a command does nothing.
pub proof fn law_foreign_packet(packet: Seq<u8>, positions: Seq<u16>, cosines: Seq<Single>)
    requires
        packet.len() < 5 || packet[0] != 0xAA,
    ensures
        packet_plan(packet, positions, cosines) == Seq::<Step>::empty(),
        positions_after(packet, positions) == positions,
{
}

/// Only the first five bytes count, and the checksum counts for nothing but the report of what
/// came in.
pub proof fn law_checksum_untested(
    packet1: Seq<u8>,
    packet2: Seq<u8>,
    positions: Seq<u16>,
    cosines: Seq<Single>,
)
    requires
        packet1.len() >= PACKET_LEN,
        packet2.len() >= PACKET_LEN,
        forall|k: int| 0 <= k < 4 ==> #[trigger] packet1[k] == packet2[k],
    ensures
        positions_after(packet1, positions) == positions_after(packet2, positions),
        packet_plan(packet1, positions, cosines).skip(1) == packet_plan(
            packet2,
            positions,
            cosines,
        ).skip(1),
        packet1[4] == packet2[4] ==> packet_plan(packet1, positions, cosines) == packet_plan(
            packet2,
            positions,
            cosines,
        ),
{
    let plan1 = packet_plan(packet1, positions, cosines);
    let plan2 = packet_plan(packet2, positions, cosines);
    assert(plan1.skip(1) =~= plan2.skip(1));
}

/// A packet for a single motor writes at most once: to that motor, between 150 and 787, which the
/// board takes. The motors that go by the vertical angle get at most 595.
pub proof fn law_drive(packet: Seq<u8>, positions: Seq<u16>, cosines: Seq<Single>)
    requires
        packet.len() < PACKET_LEN || packet[1] != HOME_ID,
    ensures
        crate::glide::writes_within(packet_plan(packet, positions, cosines), 150, 787),
        packet.len() >= PACKET_LEN && is_vertical(packet[1]) ==> crate::glide::writes_within(
            packet_plan(packet, positions, cosines),
            150,
            595,
        ),
        forall|i: int|
            0 <= i < packet_plan(packet, positions, cosines).len() ==> match #[trigger] packet_plan(
                packet,
                positions,
                cosines,
            )[i] {
                Step::Write { .. } => false,
                Step::TryWrite { channel, .. } => motor_output(packet[1]) == Some(channel),
                _ => true,
            },
        forall|i: int, j: int|
            0 <= i < j < packet_plan(packet, positions, cosines).len() ==> !(#[trigger] packet_plan(
                packet,
                positions,
                cosines,
            )[i] is TryWrite && #[trigger] packet_plan(packet, positions, cosines)[j] is TryWrite),
{
}

/// A packet for a motor that does not exist writes nothing.
pub proof fn law_unknown_motor(packet: Seq<u8>, positions: Seq<u16>, cosines: Seq<Single>)
    requires
        is_command(packet),
        motor_output(packet[1]) is None,
        packet[1] != HOME_ID,
    ensures
        packet_plan(packet, positions, cosines).last() == Step::Say(
            Message::UnknownMotor { motor_id: packet[1] },
        ),
        forall|i: int|
            0 <= i < packet_plan(packet, positions, cosines).len() ==> #[trigger] packet_plan(
                packet,
                positions,
                cosines,
            )[i] is Say,
{
}

proof fn lemma_leg(
    positions: Seq<u16>,
    cosines: Seq<Single>,
    i: int,
    low: u16,
    high: u16,
)
    requires
        0 <= i < 3,
        positions.len() == 4,
        crate::cosines::are_cosines(cosines),
        low <= positions[i] <= high,
        low <= home_pulses()[i] <= high,
    ensures
        crate::glide::in_bands(
            home_leg(positions, cosines, i),
            seq![home_channels()[i]],
            seq![low],
            seq![high],
        ),
        forall|k: int|
            0 <= k < home_leg(positions, cosines, i).len() ==> match #[trigger] home_leg(
                positions,
                cosines,
                i,
            )[k] {
                Step::Write { channel, on, off } => channel == home_channels()[i] && on == 0 && low
                    <= off <= high,
                Step::TryWrite { .. } => false,
                _ => true,
            },
{
    let channels = seq![home_channels()[i]];
    let starts = seq![positions[i]];
    let targets = seq![home_pulses()[i]];
    let core = crate::glide::glide(channels, starts, targets, cosines, 12);
    let leg = home_leg(positions, cosines, i);
    crate::glide::law_glide_bands(
        channels,
        starts,
        targets,
        cosines,
        12,
        seq![low],
        seq![high],
    );
    crate::glide::lemma_glide_channels(channels, starts, targets, cosines, 12);
    assert forall|k: int| 0 <= k < leg.len() implies match #[trigger] leg[k] {
        Step::Write { channel, on, off } => channel == home_channels()[i] && on == 0 && low <= off
            <= high,
        Step::TryWrite { .. } => false,
        _ => true,
    } by {
        if k < core.len() {
            assert(leg[k] == core[k]);
            if let Step::Write { channel, .. } = core[k] {
                assert(channels[0] == channel);
            }
        }
    }
}

/// On the way home, whatever is written lies between the bounds that the three positions lie
/// between at the start and at home.
pub proof fn law_home_within(positions: Seq<u16>, cosines: Seq<Single>, low: u16, high: u16)
    requires
        positions.len() == 4,
        crate::cosines::are_cosines(cosines),
        low <= 375,
        high >= 530,
        forall|j: int| 0 <= j < 3 ==> low <= #[trigger] positions[j] <= high,
    ensures
        crate::glide::writes_within(home_plan(positions, cosines), low, high),
{
    lemma_leg(positions, cosines, 0, low, high);
    lemma_leg(positions, cosines, 1, low, high);
    lemma_leg(positions, cosines, 2, low, high);
}

/// On the way home, whatever is written to a joint lies between its position and its home.
pub proof fn law_home_between(positions: Seq<u16>, cosines: Seq<Single>)
    requires
        positions.len() == 4,
        crate::cosines::are_cosines(cosines),
    ensures
        crate::glide::on_the_way(
            home_plan(positions, cosines),
            home_channels(),
            positions,
            home_pulses(),
        ),
{
    lemma_leg_between(positions, cosines, 0);
    lemma_leg_between(positions, cosines, 1);
    lemma_leg_between(positions, cosines, 2);
}

proof fn lemma_leg_between(positions: Seq<u16>, cosines: Seq<Single>, i: int)
    requires
        0 <= i < 3,
        positions.len() == 4,
        crate::cosines::are_cosines(cosines),
    ensures
        crate::glide::on_the_way(
            home_leg(positions, cosines, i),
            home_channels(),
            positions,
            home_pulses(),
        ),
{
    if positions[i] <= home_pulses()[i] {
        lemma_leg(positions, cosines, i, positions[i], home_pulses()[i]);
    } else {
        lemma_leg(positions, cosines, i, home_pulses()[i], positions[i]);
    }
}

/// An arm that is at home does not move when it is sent home.
pub proof fn law_home_again(positions: Seq<u16>, cosines: Seq<Single>)
    requires
        positions.len() == 4,
        crate::cosines::are_cosines(cosines),
    ensures
        home_positions(home_positions(positions)) == home_positions(positions),
        crate::glide::in_bands(
            home_plan(home_positions(positions), cosines),
            home_channels(),
            home_pulses(),
            home_pulses(),
        ),
{
    let home = home_positions(positions);
    assert(home_positions(home) =~= home);
    lemma_leg(home, cosines, 0, 375, 375);
    lemma_leg(home, cosines, 1, 482, 482);
    lemma_leg(home, cosines, 2, 530, 530);
}

/// The way of joint `j` writes nothing to joint `i`, and takes joint `j` straight home.
proof fn lemma_leg_heads(
    positions: Seq<u16>,
    cosines: Seq<Single>,
    j: int,
    i: int,
    heading: Heading,
)
    requires
        0 <= i < 3,
        0 <= j < 3,
        positions.len() == 4,
        crate::cosines::are_cosines(cosines),
        crate::cosines::are_falling(cosines),
        crate::glide::keeps(heading, positions[i], home_pulses()[i]),
    ensures
        crate::glide::heads(home_leg(positions, cosines, j), home_channels()[i], heading),
        crate::glide::spans(
            home_leg(positions, cosines, j),
            home_channels()[i],
            heading,
            positions[i],
            home_pulses()[i],
        ),
        j != i ==> forall|k: int|
            0 <= k < home_leg(positions, cosines, j).len() ==> crate::glide::written(
                #[trigger] home_leg(positions, cosines, j)[k],
                home_channels()[i],
            ) is None,
{
    let channels = seq![home_channels()[j]];
    let starts = seq![positions[j]];
    let targets = seq![home_pulses()[j]];
    let core = crate::glide::glide(channels, starts, targets, cosines, 12);
    let leg = home_leg(positions, cosines, j);
    if j == i {
        crate::glide::law_glide_heads(channels, starts, targets, cosines, 12, 0, heading);
        assert(leg =~= core + seq![Step::Pause { ms: 50 }]);
        crate::glide::law_heads_append(
            core,
            seq![Step::Pause { ms: 50 }],
            home_channels()[i],
            heading,
            positions[i],
            home_pulses()[i],
            home_pulses()[i],
        );
    } else {
        crate::glide::lemma_glide_channels(channels, starts, targets, cosines, 12);
        assert forall|k: int| 0 <= k < leg.len() implies crate::glide::written(
            #[trigger] leg[k],
            home_channels()[i],
        ) is None by {
            if k < core.len() {
                assert(leg[k] == core[k]);
                if let Step::Write { channel, .. } = core[k] {
                    assert(channels[0] == channel);
                }
            }
        }
    }
}

/// While the cosines fall, every joint goes straight home: it never turns back on the way.
pub proof fn law_home_onward(
    positions: Seq<u16>,
    cosines: Seq<Single>,
    i: int,
    heading: Heading,
)
    requires
        0 <= i < 3,
        positions.len() == 4,
        crate::cosines::are_cosines(cosines),
        crate::cosines::are_falling(cosines),
        crate::glide::keeps(heading, positions[i], home_pulses()[i]),
    ensures
        crate::glide::heads(home_plan(positions, cosines), home_channels()[i], heading),
        crate::glide::spans(
            home_plan(positions, cosines),
            home_channels()[i],
            heading,
            positions[i],
            home_pulses()[i],
        ),
{
    let from = positions[i];
    let to = home_pulses()[i];
    let channel = home_channels()[i];
    let leg0 = home_leg(positions, cosines, 0);
    let leg1 = home_leg(positions, cosines, 1);
    let leg2 = home_leg(positions, cosines, 2);
    lemma_leg_heads(positions, cosines, 0, i, heading);
    lemma_leg_heads(positions, cosines, 1, i, heading);
    lemma_leg_heads(positions, cosines, 2, i, heading);
    let mid1 = if i == 0 {
        to
    } else {
        from
    };
    let mid2 = if i == 2 {
        from
    } else {
        to
    };
    crate::glide::law_heads_append(leg0, leg1, channel, heading, from, mid1, mid2);
    crate::glide::law_heads_append(leg0 + leg1, leg2, channel, heading, from, mid2, to);
}

/// A packet for one of the motors 0 to 5 is reported, and so is its pulse; then comes exactly one
/// write, to the output with the number of the motor, from count 0 to the pulse, and a pause of
/// 10 ms. The pulse is 150 and 5 for each vertical degree up to 89 for the motors 1 to 3, and 150
/// and two and a half for each horizontal degree for the others. The positions stay.
pub proof fn law_drive_motor(packet: Seq<u8>, positions: Seq<u16>, cosines: Seq<Single>)
    requires
        packet.len() >= 5,
        packet[0] == 0xAA,
        packet[1] <= 5,
    ensures
        ({
            let plan = packet_plan(packet, positions, cosines);
            let outputs = seq![
                Channel::C0,
                Channel::C1,
                Channel::C2,
                Channel::C3,
                Channel::C4,
                Channel::C5,
            ];
            let y: int = if packet[3] <= 89 {
                packet[3] as int
            } else {
                89
            };
            let asked: int = if 1 <= packet[1] <= 3 {
                150 + 5 * y
            } else {
                150 + 5 * packet[2] as int / 2
            };
            let n = plan.len();
            &&& n >= 4
            &&& plan[n - 2] matches Step::TryWrite { channel, on, off } && channel
                == outputs[packet[1] as int] && on == 0 && off == asked
            &&& plan[n - 1] == (Step::Pause { ms: 10 })
            &&& forall|i: int| 0 <= i < n - 2 ==> #[trigger] plan[i] is Say
            &&& plan[0] == Step::Say(
                Message::Received {
                    motor_id: packet[1],
                    x_angle: packet[2],
                    y_angle: packet[3],
                    checksum: packet[4],
                },
            )
            &&& plan[n - 3] matches Step::Say(Message::PulseChosen { count }) && count == asked
            &&& !(1 <= packet[1] <= 3) ==> n == 4
            &&& 1 <= packet[1] <= 3 ==> {
                &&& n == if packet[3] < 6 {
                    8int
                } else {
                    7int
                }
                &&& plan[1] matches Step::Say(Message::AngleLimited { angle }) && angle == y
                &&& plan[2] matches Step::Say(Message::PulseRaw { pulse }) && pulse == asked
                &&& plan[3] matches Step::Say(Message::PulseLimited { pulse }) && pulse == asked
                &&& packet[3] < 6 ==> (plan[4] matches Step::Say(Message::PulseLow { pulse })
                    && pulse == asked)
            }
        }),
        positions_after(packet, positions) == positions,
{
}

/// A packet for a motor that does not exist is reported, with the pulse that it asks for and a
/// warning, and nothing is written. The positions stay.
pub proof fn law_drive_nothing(packet: Seq<u8>, positions: Seq<u16>, cosines: Seq<Single>)
    requires
        packet.len() >= 5,
        packet[0] == 0xAA,
        5 < packet[1] < 0xFF,
    ensures
        ({
            let plan = packet_plan(packet, positions, cosines);
            &&& plan.len() == 3
            &&& plan[0] == Step::Say(
                Message::Received {
                    motor_id: packet[1],
                    x_angle: packet[2],
                    y_angle: packet[3],
                    checksum: packet[4],
                },
            )
            &&& plan[1] matches Step::Say(Message::PulseChosen { count }) && count == 150 + 5
                * packet[2] as int / 2
            &&& plan[2] == Step::Say(Message::UnknownMotor { motor_id: packet[1] })
        }),
        positions_after(packet, positions) == positions,
{
}

/// What a joint on its way home is written: `n` steps and a rest.
proof fn lemma_leg_course(positions: Seq<u16>, cosines: Seq<Single>, j: int, i: int)
    requires
        0 <= j < 3,
        positions.len() == 4,
        crate::cosines::are_cosines(cosines),
        0 <= i < cosines.len(),
    ensures
        ({
            let leg = home_leg(positions, cosines, j);
            let n = cosines.len();
            &&& leg.len() == 2 * n + 1
            &&& leg[2 * i] matches Step::Write { channel, on, off } && channel == home_channels()[j]
                && on == 0 && crate::curve::eases(
                off,
                positions[j],
                home_pulses()[j],
                cosines[i]@,
            ) && (cosines[i]@.place() == -crate::number::Number::one() ==> off == home_pulses()[j])
            &&& leg[2 * i + 1] == (Step::Pause { ms: 12 })
            &&& leg[2 * n as int] == (Step::Pause { ms: 50 })
        }),
{
    let channels = seq![home_channels()[j]];
    let starts = seq![positions[j]];
    let targets = seq![home_pulses()[j]];
    crate::glide::law_glide_course(channels, starts, targets, cosines, 12, i, 0);
    crate::glide::law_glide_steps(channels, starts, targets, cosines, 12, i, 0);
    let c = cosines[i]@;
    crate::curve::law_weight_is_share(c);
    crate::curve::law_weight_ends(c);
    crate::curve::law_ends(positions[j], home_pulses()[j], crate::curve::weight(c));
    let n = channels.len() + 1;
    assert(i * n == 2 * i && cosines.len() * n == 2 * cosines.len()) by (nonlinear_arith)
        requires
            n == 2,
    ;
}

/// On the way home C1, C2 and C0 go one after the other, each from where it is, to 375, 482 and
/// 530: one write for each cosine, on the course of the move, and a pause of 12 ms after it, and a
/// pause of 50 ms after each joint. Where the cosine is -1, a joint is home. The three positions
/// are then those of home, and the fourth stays.
pub proof fn law_home_course(positions: Seq<u16>, cosines: Seq<Single>, j: int, i: int)
    requires
        positions.len() == 4,
        crate::cosines::are_cosines(cosines),
        0 <= j < 3,
        0 <= i < cosines.len(),
    ensures
        ({
            let plan = home_plan(positions, cosines);
            let channels = seq![Channel::C1, Channel::C2, Channel::C0];
            let homes = seq![375u16, 482, 530];
            let n = cosines.len();
            let first = j * (2 * n + 1);
            &&& plan.len() == 6 * n + 3
            &&& plan[first + 2 * i] matches Step::Write { channel, on, off } && channel
                == channels[j] && on == 0 && crate::curve::eases(
                off,
                positions[j],
                homes[j],
                cosines[i]@,
            ) && (cosines[i]@.place() == -crate::number::Number::one() ==> off == homes[j])
            &&& plan[first + 2 * i + 1] == (Step::Pause { ms: 12 })
            &&& plan[first + 2 * n] == (Step::Pause { ms: 50 })
        }),
        home_positions(positions) == seq![375u16, 482, 530, positions[3]],
{
    lemma_leg_course(positions, cosines, 0, i);
    lemma_leg_course(positions, cosines, 1, i);
    lemma_leg_course(positions, cosines, 2, i);
    let home = home_plan(positions, cosines);
    let leg = home_leg(positions, cosines, j);
    let n = cosines.len();
    let whole = 2 * n + 1;
    assert(0 * whole == 0 && 1 * whole == whole && 2 * whole == whole + whole);
    assert forall|k: int| 0 <= k < whole implies home[j * whole + k] == #[trigger] leg[k] by {}
    assert(leg[2 * i] == home[j * whole + 2 * i]);
    assert(leg[2 * i + 1] == home[j * whole + (2 * i + 1)]);
    assert(leg[2 * n as int] == home[j * whole + 2 * n]);
    assert(home_positions(positions) =~= seq![375u16, 482, 530, positions[3]]);
}

/// The packet with the motor 0xFF is reported, and then comes the way home.
pub proof fn law_home_packet(packet: Seq<u8>, positions: Seq<u16>, cosines: Seq<Single>)
    requires
        packet.len() >= 5,
        packet[0] == 0xAA,
        packet[1] == 0xFF,
        positions.len() == 4,
    ensures
        packet_plan(packet, positions, cosines) == seq![
            Step::Say(
                Message::Received {
                    motor_id: 0xFF,
                    x_angle: packet[2],
                    y_angle: packet[3],
                    checksum: packet[4],
                },
            ),
        ] + home_plan(positions, cosines),
        positions_after(packet, positions) == seq![375u16, 482, 530, positions[3]],
{
    assert(packet_plan(packet, positions, cosines).len() == 1 + home_plan(
        positions,
        cosines,
    ).len());
    assert(positions_after(packet, positions) =~= seq![375u16, 482, 530, positions[3]]);
}

} // verus!
