//! Routines: what is said, where the arm goes and how long it rests, in order.

use vstd::prelude::*;

use crate::glide::Heading;
use crate::single::Single;
use crate::step::{Channel, Message, Step};

verus! {

/// One act of a routine.
pub enum Act {
    Say(Message),
    /// Move every joint together to the given pose.
    Go(Seq<u16>),
    /// Wait, in milliseconds.
    Rest(u32),
}

/// The pose after `acts`, from the pose `at`: that of the last move.
pub open spec fn pose_after(acts: Seq<Act>, at: Seq<u16>) -> Seq<u16>
    decreases acts.len(),
{
    if acts.len() == 0 {
        at
    } else {
        match acts.last() {
            Act::Go(pose) => pose,
            _ => pose_after(acts.drop_last(), at),
        }
    }
}

/// The plan of a single act, from the pose `at`.
pub open spec fn perform(act: Act, at: Seq<u16>, cosines: Seq<Single>) -> Seq<Step> {
    match act {
        Act::Say(message) => seq![Step::Say(message)],
        Act::Go(pose) => if pose.len() == 4 {
            crate::glide::four_move(at, pose, cosines)
        } else {
            crate::glide::five_move(at, pose, cosines)
        },
        Act::Rest(ms) => seq![Step::Pause { ms }],
    }
}

/// The plan of `acts`, from the pose `at`.
pub open spec fn play(acts: Seq<Act>, at: Seq<u16>, cosines: Seq<Single>) -> Seq<Step>
    decreases acts.len(),
{
    if acts.len() == 0 {
        Seq::empty()
    } else {
        play(acts.drop_last(), at, cosines) + perform(
            acts.last(),
            pose_after(acts.drop_last(), at),
            cosines,
        )
    }
}

/// The channels of a pose of four or five joints.
pub open spec fn pose_channels(joints: nat) -> Seq<Channel> {
    if joints == 4 {
        crate::glide::four_channels()
    } else {
        crate::glide::five_channels()
    }
}

/// Every pose that `acts` goes to has each joint between its bounds.
pub open spec fn acts_in_bands(acts: Seq<Act>, low: Seq<u16>, high: Seq<u16>) -> bool {
    forall|i: int|
        0 <= i < acts.len() ==> match #[trigger] acts[i] {
            Act::Go(pose) => crate::glide::pose_in_bands(pose, low, high),
            _ => true,
        }
}

/// All acts but the last one are between the bounds too.
pub proof fn lemma_bands_before(acts: Seq<Act>, low: Seq<u16>, high: Seq<u16>)
    requires
        acts.len() > 0,
        acts_in_bands(acts, low, high),
    ensures
        acts_in_bands(acts.drop_last(), low, high),
{
    let before = acts.drop_last();
    assert forall|i: int| 0 <= i < before.len() implies match #[trigger] before[i] {
        Act::Go(pose) => crate::glide::pose_in_bands(pose, low, high),
        _ => true,
    } by {
        assert(before[i] == acts[i]);
    }
}

/// Acts one after the other: the second ones start from the pose that the first ones end in.
pub proof fn law_play_append(
    first: Seq<Act>,
    second: Seq<Act>,
    at: Seq<u16>,
    cosines: Seq<Single>,
)
    ensures
        play(first + second, at, cosines) == play(first, at, cosines) + play(
            second,
            pose_after(first, at),
            cosines,
        ),
        pose_after(first + second, at) == pose_after(second, pose_after(first, at)),
    decreases second.len(),
{
    if second.len() == 0 {
        assert(first + second =~= first);
    } else {
        law_play_append(first, second.drop_last(), at, cosines);
        assert((first + second).drop_last() =~= first + second.drop_last());
        assert((first + second).last() == second.last());
        assert(play(first + second, at, cosines) =~= play(first, at, cosines) + play(
            second,
            pose_after(first, at),
            cosines,
        ));
    }
}

/// A routine that starts between the bounds and goes only to poses between them never writes
/// anything beyond them, and ends between them.
pub proof fn law_play_bands(
    acts: Seq<Act>,
    at: Seq<u16>,
    cosines: Seq<Single>,
    low: Seq<u16>,
    high: Seq<u16>,
)
    requires
        at.len() == 4 || at.len() == 5,
        crate::glide::pose_in_bands(at, low, high),
        acts_in_bands(acts, low, high),
        crate::cosines::are_cosines(cosines),
    ensures
        crate::glide::in_bands(play(acts, at, cosines), pose_channels(at.len()), low, high),
        crate::glide::pose_in_bands(pose_after(acts, at), low, high),
    decreases acts.len(),
{
    if acts.len() > 0 {
        let before = acts.drop_last();
        lemma_bands_before(acts, low, high);
        law_play_bands(before, at, cosines, low, high);
        let here = pose_after(before, at);
        let act = acts[acts.len() - 1];
        let channels = pose_channels(at.len());
        let first = play(before, at, cosines);
        let last = perform(act, here, cosines);
        assert(crate::glide::in_bands(last, channels, low, high)) by {
            match act {
                Act::Go(pose) => {
                    crate::glide::law_glide_bands(channels, here, pose, cosines, 15, low, high);
                    if pose.len() == 4 {
                        let core = crate::glide::glide(channels, here, pose, cosines, 15);
                        assert forall|i: int, a: int|
                            0 <= i < last.len() && 0 <= a < channels.len() implies match
                            #[trigger] last[i] {
                            Step::Write { channel, on, off } => channel == #[trigger] channels[a]
                                ==> on == 0 && low[a] <= off <= high[a],
                            Step::TryWrite { channel, on, off } => channel == channels[a] ==> on
                                == 0 && low[a] <= off <= high[a],
                            _ => true,
                        } by {
                            if 0 < i <= core.len() {
                                assert(last[i] == core[i - 1]);
                            }
                        }
                    }
                },
                _ => {},
            }
        }
        let plan = play(acts, at, cosines);
        assert forall|i: int, a: int|
            0 <= i < plan.len() && 0 <= a < channels.len() implies match #[trigger] plan[i] {
            Step::Write { channel, on, off } => channel == #[trigger] channels[a] ==> on == 0
                && low[a] <= off <= high[a],
            Step::TryWrite { channel, on, off } => channel == channels[a] ==> on == 0 && low[a]
                <= off <= high[a],
            _ => true,
        } by {
            if i < first.len() {
                assert(plan[i] == first[i]);
            } else {
                assert(plan[i] == last[i - first.len()]);
            }
        }
    }
}

/// Of two moves of five joints, one after the other, the second starts where the first ended,
/// whatever the pose was before: all that it writes lies between the two poses.
pub proof fn law_moves_in_turn(
    before: Seq<u16>,
    first: Seq<u16>,
    second: Seq<u16>,
    cosines: Seq<Single>,
)
    requires
        first.len() == 5,
        second.len() == 5,
        crate::cosines::are_cosines(cosines),
    ensures
        ({
            let acts = seq![Act::Go(first), Act::Go(second)];
            &&& play(acts, before, cosines) == crate::glide::five_move(before, first, cosines)
                + crate::glide::five_move(first, second, cosines)
            &&& pose_after(acts, before) == second
        }),
        crate::glide::on_the_way(
            crate::glide::five_move(first, second, cosines),
            crate::glide::five_channels(),
            first,
            second,
        ),
{
    let acts = seq![Act::Go(first), Act::Go(second)];
    let one = seq![Act::Go(first)];
    assert(acts.drop_last() =~= one);
    assert(one.last() == Act::Go(first));
    assert(acts.last() == Act::Go(second));
    assert(play(one.drop_last(), before, cosines) =~= Seq::empty());
    assert(pose_after(one.drop_last(), before) == before);
    assert(play(one, before, cosines) =~= crate::glide::five_move(before, first, cosines));
    assert(play(acts, before, cosines) =~= crate::glide::five_move(before, first, cosines)
        + crate::glide::five_move(first, second, cosines));
    crate::glide::law_glide_between(crate::glide::five_channels(), first, second, cosines, 15);
}

/// The first `lead` acts of a routine bring it between the bounds, and from there on it stays
/// between them, wherever it started.
pub open spec fn stays(
    acts: Seq<Act>,
    lead: int,
    at: Seq<u16>,
    cosines: Seq<Single>,
    low: Seq<u16>,
    high: Seq<u16>,
) -> bool {
    let rest = play(acts.skip(lead), pose_after(acts.take(lead), at), cosines);
    &&& play(acts, at, cosines) == play(acts.take(lead), at, cosines) + rest
    &&& crate::glide::in_bands(rest, pose_channels(at.len()), low, high)
}

/// Where the first `lead` acts end between the bounds and all that follow keep between them, the
/// routine stays there.
pub proof fn law_stays(
    acts: Seq<Act>,
    lead: int,
    at: Seq<u16>,
    cosines: Seq<Single>,
    low: Seq<u16>,
    high: Seq<u16>,
)
    requires
        at.len() == 4 || at.len() == 5,
        low.len() == at.len(),
        0 <= lead <= acts.len(),
        crate::glide::pose_in_bands(pose_after(acts.take(lead), at), low, high),
        acts_in_bands(acts, low, high),
        crate::cosines::are_cosines(cosines),
    ensures
        stays(acts, lead, at, cosines, low, high),
{
    let first = acts.take(lead);
    let second = acts.skip(lead);
    assert(first + second =~= acts);
    law_play_append(first, second, at, cosines);
    assert(acts_in_bands(second, low, high)) by {
        assert forall|i: int| 0 <= i < second.len() implies match #[trigger] second[i] {
            Act::Go(pose) => crate::glide::pose_in_bands(pose, low, high),
            _ => true,
        } by {
            assert(second[i] == acts[lead + i]);
        }
    }
    law_play_bands(second, pose_after(first, at), cosines, low, high);
}

/// One more act between the bounds.
pub proof fn lemma_bands_push(acts: Seq<Act>, act: Act, low: Seq<u16>, high: Seq<u16>)
    requires
        acts_in_bands(acts, low, high),
        act matches Act::Go(pose) ==> crate::glide::pose_in_bands(pose, low, high),
    ensures
        acts_in_bands(acts.push(act), low, high),
{
    let more = acts.push(act);
    assert forall|i: int| 0 <= i < more.len() implies match #[trigger] more[i] {
        Act::Go(pose) => crate::glide::pose_in_bands(pose, low, high),
        _ => true,
    } by {
        if i < acts.len() {
            assert(more[i] == acts[i]);
        }
    }
}

/// From pose to pose of `acts`, joint `a` keeps to a heading.
pub open spec fn acts_keep(acts: Seq<Act>, at: Seq<u16>, a: int, heading: Heading) -> bool
    decreases acts.len(),
{
    acts.len() > 0 ==> {
        &&& acts_keep(acts.drop_last(), at, a, heading)
        &&& acts.last() matches Act::Go(pose) ==> pose.len() == at.len() && crate::glide::keeps(
            heading,
            pose_after(acts.drop_last(), at)[a],
            pose[a],
        )
    }
}

/// From pose to pose of `acts`, every joint keeps to its heading.
pub open spec fn all_keep(acts: Seq<Act>, at: Seq<u16>, headings: Seq<Heading>) -> bool {
    &&& headings.len() == at.len()
    &&& forall|a: int|
        0 <= a < headings.len() ==> acts_keep(acts, at, a, #[trigger] headings[a])
}

/// In `plan`, which leads from the pose `at` to the pose `to`, every joint keeps to its heading
/// and stays on the way between the two.
pub open spec fn all_head(
    plan: Seq<Step>,
    at: Seq<u16>,
    to: Seq<u16>,
    headings: Seq<Heading>,
) -> bool {
    forall|a: int|
        0 <= a < headings.len() ==> crate::glide::heads(
            plan,
            pose_channels(at.len())[a],
            #[trigger] headings[a],
        ) && crate::glide::spans(plan, pose_channels(at.len())[a], headings[a], at[a], to[a])
}

/// One more act that keeps to the headings.
pub proof fn lemma_keep_push(acts: Seq<Act>, act: Act, at: Seq<u16>, headings: Seq<Heading>)
    requires
        all_keep(acts, at, headings),
        act matches Act::Go(pose) ==> pose.len() == at.len() && forall|a: int|
            0 <= a < headings.len() ==> crate::glide::keeps(
                #[trigger] headings[a],
                pose_after(acts, at)[a],
                pose[a],
            ),
    ensures
        all_keep(acts.push(act), at, headings),
        pose_after(acts.push(act), at) == (match act {
            Act::Go(pose) => pose,
            _ => pose_after(acts, at),
        }),
{
    assert(acts.push(act).drop_last() =~= acts);
    assert(acts.push(act).last() == act);
    assert forall|a: int| 0 <= a < headings.len() implies acts_keep(
        acts.push(act),
        at,
        a,
        #[trigger] headings[a],
    ) by {
        assert(acts_keep(acts, at, a, headings[a]));
    }
}

/// The acts of a routine from `first` on keep to headings up to one more act if that act does.
pub proof fn lemma_keep_next(
    acts: Seq<Act>,
    first: int,
    last: int,
    at: Seq<u16>,
    headings: Seq<Heading>,
)
    requires
        0 <= first <= last < acts.len(),
        all_keep(acts.subrange(first, last), at, headings),
        match acts[last] {
            Act::Go(pose) => {
                &&& pose.len() == at.len()
                &&& forall|a: int|
                    0 <= a < headings.len() ==> crate::glide::keeps(
                        #[trigger] headings[a],
                        pose_after(acts.subrange(first, last), at)[a],
                        pose[a],
                    )
            },
            _ => true,
        },
    ensures
        all_keep(acts.subrange(first, last + 1), at, headings),
        pose_after(acts.subrange(first, last + 1), at) == match acts[last] {
            Act::Go(pose) => pose,
            _ => pose_after(acts.subrange(first, last), at),
        },
{
    assert(acts.subrange(first, last + 1) =~= acts.subrange(first, last).push(acts[last]));
    lemma_keep_push(acts.subrange(first, last), acts[last], at, headings);
}

/// A message, a move and a rest that keep to the headings.
pub proof fn lemma_keep_turn(
    acts: Seq<Act>,
    message: Message,
    pose: Seq<u16>,
    ms: u32,
    at: Seq<u16>,
    headings: Seq<Heading>,
)
    requires
        all_keep(acts, at, headings),
        pose.len() == at.len(),
        forall|a: int|
            0 <= a < headings.len() ==> crate::glide::keeps(
                #[trigger] headings[a],
                pose_after(acts, at)[a],
                pose[a],
            ),
    ensures
        all_keep(
            acts.push(Act::Say(message)).push(Act::Go(pose)).push(Act::Rest(ms)),
            at,
            headings,
        ),
        pose_after(acts.push(Act::Say(message)).push(Act::Go(pose)).push(Act::Rest(ms)), at)
            == pose,
{
    let said = acts.push(Act::Say(message));
    lemma_keep_push(acts, Act::Say(message), at, headings);
    lemma_keep_push(said, Act::Go(pose), at, headings);
    lemma_keep_push(said.push(Act::Go(pose)), Act::Rest(ms), at, headings);
}

proof fn lemma_play_heads(
    acts: Seq<Act>,
    at: Seq<u16>,
    cosines: Seq<Single>,
    a: int,
    heading: Heading,
)
    requires
        at.len() == 4 || at.len() == 5,
        crate::cosines::are_cosines(cosines),
        crate::cosines::are_falling(cosines),
        0 <= a < at.len(),
        acts_keep(acts, at, a, heading),
    ensures
        crate::glide::heads(play(acts, at, cosines), pose_channels(at.len())[a], heading),
        crate::glide::spans(
            play(acts, at, cosines),
            pose_channels(at.len())[a],
            heading,
            at[a],
            pose_after(acts, at)[a],
        ),
        crate::glide::keeps(heading, at[a], pose_after(acts, at)[a]),
        pose_after(acts, at).len() == at.len(),
    decreases acts.len(),
{
    if acts.len() > 0 {
        let before = acts.drop_last();
        lemma_play_heads(before, at, cosines, a, heading);
        let here = pose_after(before, at);
        let there = pose_after(acts, at);
        let channels = pose_channels(at.len());
        let channel = channels[a];
        let act = acts.last();
        let last = perform(act, here, cosines);
        assert({
            &&& crate::glide::heads(last, channel, heading)
            &&& crate::glide::spans(last, channel, heading, here[a], there[a])
        }) by {
            if let Act::Go(pose) = act {
                crate::glide::law_glide_heads(channels, here, pose, cosines, 15, a, heading);
                if pose.len() == 4 {
                    let core = crate::glide::glide(channels, here, pose, cosines, 15);
                    crate::glide::law_heads_append(
                        seq![Step::Say(Message::FourStart)],
                        core,
                        channel,
                        heading,
                        here[a],
                        here[a],
                        pose[a],
                    );
                    crate::glide::law_heads_append(
                        seq![Step::Say(Message::FourStart)] + core,
                        seq![Step::Say(Message::FourDone)],
                        channel,
                        heading,
                        here[a],
                        pose[a],
                        pose[a],
                    );
                }
            }
        }
        crate::glide::law_heads_append(
            play(before, at, cosines),
            last,
            channel,
            heading,
            at[a],
            here[a],
            there[a],
        );
    }
}

/// While the cosines fall, acts whose poses keep to headings make a plan that keeps to them.
pub proof fn law_play_heads(
    acts: Seq<Act>,
    at: Seq<u16>,
    cosines: Seq<Single>,
    headings: Seq<Heading>,
)
    requires
        at.len() == 4 || at.len() == 5,
        crate::cosines::are_cosines(cosines),
        crate::cosines::are_falling(cosines),
        all_keep(acts, at, headings),
    ensures
        all_head(play(acts, at, cosines), at, pose_after(acts, at), headings),
{
    assert forall|a: int| 0 <= a < headings.len() implies crate::glide::heads(
        play(acts, at, cosines),
        pose_channels(at.len())[a],
        #[trigger] headings[a],
    ) && crate::glide::spans(
        play(acts, at, cosines),
        pose_channels(at.len())[a],
        headings[a],
        at[a],
        pose_after(acts, at)[a],
    ) by {
        lemma_play_heads(acts, at, cosines, a, headings[a]);
    }
}

/// The acts from `first` to before `last` lead from the pose `from` to the pose `to`, and on the
/// way every joint keeps to its heading, wherever the routine started.
pub open spec fn section_heads(
    acts: Seq<Act>,
    first: int,
    last: int,
    at: Seq<u16>,
    from: Seq<u16>,
    to: Seq<u16>,
    cosines: Seq<Single>,
    headings: Seq<Heading>,
) -> bool {
    let section = play(acts.subrange(first, last), from, cosines);
    &&& pose_after(acts.take(first), at) == from
    &&& pose_after(acts.take(last), at) == to
    &&& play(acts, at, cosines) == play(acts.take(first), at, cosines) + section + play(
        acts.skip(last),
        to,
        cosines,
    )
    &&& all_head(section, from, to, headings)
}

/// A section of a routine whose poses keep to headings makes a part of its plan that keeps to
/// them.
pub proof fn law_section(
    acts: Seq<Act>,
    first: int,
    last: int,
    at: Seq<u16>,
    cosines: Seq<Single>,
    headings: Seq<Heading>,
)
    requires
        0 <= first <= last <= acts.len(),
        pose_after(acts.take(first), at).len() == 4 || pose_after(acts.take(first), at).len() == 5,
        crate::cosines::are_cosines(cosines),
        crate::cosines::are_falling(cosines),
        all_keep(acts.subrange(first, last), pose_after(acts.take(first), at), headings),
    ensures
        section_heads(
            acts,
            first,
            last,
            at,
            pose_after(acts.take(first), at),
            pose_after(acts.subrange(first, last), pose_after(acts.take(first), at)),
            cosines,
            headings,
        ),
{
    let lead = acts.take(first);
    let part = acts.subrange(first, last);
    let from = pose_after(lead, at);
    assert(lead + part =~= acts.take(last));
    assert(acts.take(last) + acts.skip(last) =~= acts);
    law_play_append(lead, part, at, cosines);
    law_play_append(acts.take(last), acts.skip(last), at, cosines);
    law_play_heads(part, from, cosines, headings);
}

/// How many steps a move of `joints` joints takes with `n` cosines: four joints are reported at
/// the start and at the end.
pub open spec fn move_len(joints: nat, n: nat) -> nat {
    if joints == 4 {
        5 * n + 2
    } else {
        6 * n
    }
}

/// At step `i` of a move that begins at `first` in `plan`, joint `a` is written on its course from
/// `from` to `to`, and is there where the cosine is -1; after the joints comes a pause of 15 ms.
pub open spec fn goes_step(
    plan: Seq<Step>,
    first: int,
    from: Seq<u16>,
    to: Seq<u16>,
    cosines: Seq<Single>,
    i: int,
    a: int,
) -> bool {
    let channels = seq![Channel::C1, Channel::C2, Channel::C3, Channel::C4, Channel::C5];
    let k = if to.len() == 4 {
        first + 1 + 5 * i
    } else {
        first + 6 * i
    };
    &&& plan[k + a] matches Step::Write { channel, on, off } && channel == channels[a] && on == 0
        && crate::curve::eases(off, from[a], to[a], cosines[i]@) && (cosines[i]@.place()
        == -crate::number::Number::one() ==> off == to[a])
    &&& plan[k + to.len()] == (Step::Pause { ms: 15 })
}

/// From `first` on, `plan` moves the joints together from `from` to `to`.
pub open spec fn goes(
    plan: Seq<Step>,
    first: int,
    from: Seq<u16>,
    to: Seq<u16>,
    cosines: Seq<Single>,
) -> bool {
    &&& 0 <= first
    &&& first + move_len(to.len(), cosines.len()) <= plan.len()
    &&& to.len() == 4 ==> plan[first] == Step::Say(Message::FourStart) && plan[first + 1 + 5
        * cosines.len()] == Step::Say(Message::FourDone)
    &&& forall|i: int, a: int|
        0 <= i < cosines.len() && 0 <= a < to.len() ==> #[trigger] goes_step(
            plan,
            first,
            from,
            to,
            cosines,
            i,
            a,
        )
}

/// From `first` on, `plan` reports `message`, moves from `from` to `to` and rests for `ms`.
pub open spec fn turn_at(
    plan: Seq<Step>,
    first: int,
    message: Message,
    from: Seq<u16>,
    to: Seq<u16>,
    ms: u32,
    cosines: Seq<Single>,
) -> bool {
    &&& 0 <= first
    &&& first + 2 + move_len(to.len(), cosines.len()) <= plan.len()
    &&& plan[first] == Step::Say(message)
    &&& goes(plan, first + 1, from, to, cosines)
    &&& plan[first + 1 + move_len(to.len(), cosines.len())] == (Step::Pause { ms })
}

/// What a turn in a plan consists of: a report, a move of four or of five joints, one write for
/// each joint and a pause of 15 ms at each step, and a rest.
pub proof fn law_turn_at(
    plan: Seq<Step>,
    first: int,
    message: Message,
    from: Seq<u16>,
    to: Seq<u16>,
    ms: u32,
    cosines: Seq<Single>,
    i: int,
    a: int,
)
    requires
        to.len() == 4 || to.len() == 5,
        turn_at(plan, first, message, from, to, ms, cosines),
        0 <= i < cosines.len(),
        0 <= a < to.len(),
    ensures
        ({
            let n = cosines.len();
            let channels = seq![Channel::C1, Channel::C2, Channel::C3, Channel::C4, Channel::C5];
            let k = if to.len() == 4 {
                first + 2 + 5 * i
            } else {
                first + 1 + 6 * i
            };
            &&& plan[first] == Step::Say(message)
            &&& plan[k + a] matches Step::Write { channel, on, off } && channel == channels[a] && on
                == 0 && crate::curve::eases(off, from[a], to[a], cosines[i]@) && (
            cosines[i]@.place() == -crate::number::Number::one() ==> off == to[a])
            &&& plan[k + to.len()] == (Step::Pause { ms: 15 })
            &&& to.len() == 4 ==> plan[first + 1] == Step::Say(Message::FourStart) && plan[first + 2
                + 5 * n] == Step::Say(Message::FourDone) && plan[first + 3 + 5 * n]
                == (Step::Pause { ms })
            &&& to.len() == 5 ==> plan[first + 1 + 6 * n] == (Step::Pause { ms })
        }),
{
    assert(goes_step(plan, first + 1, from, to, cosines, i, a));
}

/// The plan of a move goes from its start to its target.
proof fn lemma_goes(from: Seq<u16>, to: Seq<u16>, cosines: Seq<Single>)
    requires
        to.len() == 4 || to.len() == 5,
        from.len() == to.len(),
        crate::cosines::are_cosines(cosines),
    ensures
        goes(perform(Act::Go(to), from, cosines), 0, from, to, cosines),
        perform(Act::Go(to), from, cosines).len() == move_len(to.len(), cosines.len()),
{
    let plan = perform(Act::Go(to), from, cosines);
    let channels = pose_channels(to.len());
    crate::glide::law_glide_length(channels, from, to, cosines, 15);
    let n = channels.len() + 1;
    assert(cosines.len() * n == if to.len() == 4 {
        5 * cosines.len()
    } else {
        6 * cosines.len()
    }) by (nonlinear_arith)
        requires
            to.len() == 4 ==> n == 5,
            to.len() != 4 ==> n == 6,
    ;
    assert forall|i: int, a: int|
        0 <= i < cosines.len() && 0 <= a < to.len() implies #[trigger] goes_step(
        plan,
        0,
        from,
        to,
        cosines,
        i,
        a,
    ) by {
        let c = cosines[i]@;
        crate::curve::law_weight_is_share(c);
        crate::curve::law_weight_ends(c);
        crate::curve::law_ends(from[a], to[a], crate::curve::weight(c));
        crate::curve::law_eased(from[a], to[a], c);
        crate::glide::law_glide_steps(channels, from, to, cosines, 15, i, a);
        crate::glide::law_glide_steps(channels, from, to, cosines, 15, i, channels.len() as int);
        assert(i * n == if to.len() == 4 {
            5 * i
        } else {
            6 * i
        }) by (nonlinear_arith)
            requires
                to.len() == 4 ==> n == 5,
                to.len() != 4 ==> n == 6,
        ;
        let core = crate::glide::glide(channels, from, to, cosines, 15);
        if to.len() == 4 {
            assert(plan[1 + 5 * i + a] == core[5 * i + a]);
            assert(plan[1 + 5 * i + 4] == core[5 * i + 4]);
        }
    }
}

/// A move goes the same way wherever its plan stands in a longer one.
proof fn lemma_goes_within(
    before: Seq<Step>,
    core: Seq<Step>,
    after: Seq<Step>,
    first: int,
    from: Seq<u16>,
    to: Seq<u16>,
    cosines: Seq<Single>,
)
    requires
        to.len() == 4 || to.len() == 5,
        goes(core, first, from, to, cosines),
    ensures
        goes(before + core + after, before.len() + first, from, to, cosines),
{
    let plan = before + core + after;
    let at = before.len() + first;
    assert forall|k: int| 0 <= k < core.len() implies plan[before.len() + k] == #[trigger] core[k]
        by {}
    if to.len() == 4 {
        assert(plan[at] == core[first]);
        assert(plan[before.len() + (first + 1 + 5 * cosines.len())] == core[first + 1 + 5
            * cosines.len()]);
    }
    assert forall|i: int, a: int|
        0 <= i < cosines.len() && 0 <= a < to.len() implies #[trigger] goes_step(
        plan,
        at,
        from,
        to,
        cosines,
        i,
        a,
    ) by {
        assert(goes_step(core, first, from, to, cosines, i, a));
        let k = if to.len() == 4 {
            first + 1 + 5 * i
        } else {
            first + 6 * i
        };
        assert(plan[before.len() + (k + a)] == core[k + a]);
        assert(plan[before.len() + (k + to.len())] == core[k + to.len()]);
    }
}

/// What the act `j` of a routine is in its plan, behind what the acts before it are.
pub open spec fn act_at(
    plan: Seq<Step>,
    first: int,
    act: Act,
    from: Seq<u16>,
    cosines: Seq<Single>,
) -> bool {
    &&& 0 <= first < plan.len() || act is Go
    &&& match act {
        Act::Say(message) => plan[first] == Step::Say(message),
        Act::Rest(ms) => plan[first] == (Step::Pause { ms }),
        Act::Go(pose) => goes(plan, first, from, pose, cosines),
    }
}

/// How many steps an act takes with `n` cosines.
pub open spec fn act_len(act: Act, n: nat) -> nat {
    match act {
        Act::Go(pose) => move_len(pose.len(), n),
        _ => 1,
    }
}

/// Every act of a routine stands in its plan behind the acts before it: a report is one step, a
/// rest is one step, and a move leads from the pose of the move before it to its own.
pub proof fn law_act_at(acts: Seq<Act>, j: int, at: Seq<u16>, cosines: Seq<Single>)
    requires
        0 <= j < acts.len(),
        crate::cosines::are_cosines(cosines),
        acts[j] matches Act::Go(pose) ==> (pose.len() == 4 || pose.len() == 5) && pose_after(
            acts.take(j),
            at,
        ).len() == pose.len(),
    ensures
        act_at(
            play(acts, at, cosines),
            play(acts.take(j), at, cosines).len() as int,
            acts[j],
            pose_after(acts.take(j), at),
            cosines,
        ),
        play(acts.take(j + 1), at, cosines).len() == play(acts.take(j), at, cosines).len()
            + act_len(acts[j], cosines.len()),
        pose_after(acts.take(j + 1), at) == match acts[j] {
            Act::Go(pose) => pose,
            _ => pose_after(acts.take(j), at),
        },
{
    let lead = acts.take(j);
    let more = acts.take(j + 1);
    let here = pose_after(lead, at);
    let before = play(lead, at, cosines);
    let core = perform(acts[j], here, cosines);
    assert(more.drop_last() =~= lead);
    assert(more.last() == acts[j]);
    assert(more + acts.skip(j + 1) =~= acts);
    law_play_append(more, acts.skip(j + 1), at, cosines);
    let after = play(acts.skip(j + 1), pose_after(more, at), cosines);
    assert(play(acts, at, cosines) =~= before + core + after);
    if let Act::Go(pose) = acts[j] {
        lemma_goes(here, pose, cosines);
        lemma_goes_within(before, core, after, 0, here, pose, cosines);
    }
}

/// The acts of one turn of a routine: a report where there is one, a move and a rest.
pub open spec fn turn_acts(turn: (Option<Message>, Seq<u16>, u32)) -> Seq<Act> {
    match turn.0 {
        Some(message) => seq![Act::Say(message), Act::Go(turn.1), Act::Rest(turn.2)],
        None => seq![Act::Go(turn.1), Act::Rest(turn.2)],
    }
}

/// The acts `lead`, and then `n` turns.
pub open spec fn turns(
    lead: Seq<Act>,
    turn: spec_fn(int) -> (Option<Message>, Seq<u16>, u32),
    n: nat,
) -> Seq<Act>
    decreases n,
{
    if n == 0 {
        lead
    } else {
        turns(lead, turn, (n - 1) as nat) + turn_acts(turn(n - 1))
    }
}

/// The turns of a routine follow each other, each from the pose of the one before.
pub proof fn law_turns(
    lead: Seq<Act>,
    turn: spec_fn(int) -> (Option<Message>, Seq<u16>, u32),
    n: nat,
    k: int,
    rest: Seq<Act>,
    at: Seq<u16>,
    cosines: Seq<Single>,
)
    requires
        crate::cosines::are_cosines(cosines),
        pose_after(lead, at).len() == 5,
        forall|m: int| 0 <= m < n ==> (#[trigger] turn(m)).1.len() == 5,
        forall|m: int| 0 <= m < n ==> (#[trigger] turn(m)).0 is Some == turn(0).0 is Some,
        0 <= k < n,
    ensures
        ({
            let plan = play(turns(lead, turn, n) + rest, at, cosines);
            let whole = if turn(0).0 is Some {
                6 * cosines.len() + 2
            } else {
                6 * cosines.len() + 1
            };
            let first = play(lead, at, cosines).len() + k * whole;
            let from = if k == 0 {
                pose_after(lead, at)
            } else {
                turn(k - 1).1
            };
            let move_at = if turn(0).0 is Some {
                first + 1
            } else {
                first
            };
            &&& play(turns(lead, turn, n), at, cosines).len() == play(lead, at, cosines).len() + n
                * whole
            &&& pose_after(turns(lead, turn, n), at) == turn(n - 1).1
            &&& first + whole <= plan.len()
            &&& turn(k).0 matches Some(message) ==> plan[first] == Step::Say(message)
            &&& goes(plan, move_at, from, turn(k).1, cosines)
            &&& plan[move_at + 6 * cosines.len()] == (Step::Pause { ms: turn(k).2 })
        }),
    decreases n,
{
    let whole = if turn(0).0 is Some {
        6 * cosines.len() + 2
    } else {
        6 * cosines.len() + 1
    };
    let before = turns(lead, turn, (n - 1) as nat);
    let last = turn_acts(turn(n - 1));
    let all = turns(lead, turn, n) + rest;
    let at_last = before.len() as int;
    assert(turn(n - 1).1.len() == 5);
    assert((n - 1) * whole + whole == n * whole && 0 * whole == 0) by (nonlinear_arith);
    if n > 1 {
        assert(before == turns(lead, turn, (n - 1) as nat));
        law_turns(
            lead,
            turn,
            (n - 1) as nat,
            if k < n - 1 {
                k
            } else {
                0
            },
            last + rest,
            at,
            cosines,
        );
        assert(before + (last + rest) =~= all);
    }
    assert(play(before, at, cosines).len() == play(lead, at, cosines).len() + (n - 1) * whole);
    assert(all.take(at_last) =~= before);
    if turn(n - 1).0 is Some {
        assert(all[at_last] == last[0] && all[at_last + 1] == last[1] && all[at_last + 2]
            == last[2]);
        law_act_at(all, at_last, at, cosines);
        law_act_at(all, at_last + 1, at, cosines);
        law_act_at(all, at_last + 2, at, cosines);
        assert(all.take(at_last + 3) =~= turns(lead, turn, n));
    } else {
        assert(all[at_last] == last[0] && all[at_last + 1] == last[1]);
        law_act_at(all, at_last, at, cosines);
        law_act_at(all, at_last + 1, at, cosines);
        assert(all.take(at_last + 2) =~= turns(lead, turn, n));
    }
}

/// A report, a move and a rest that follow each other stand so in the plan.
pub proof fn lemma_turn_at(
    acts: Seq<Act>,
    j: int,
    message: Message,
    pose: Seq<u16>,
    ms: u32,
    at: Seq<u16>,
    cosines: Seq<Single>,
)
    requires
        0 <= j,
        j + 3 <= acts.len(),
        acts[j] == Act::Say(message),
        acts[j + 1] == Act::Go(pose),
        acts[j + 2] == Act::Rest(ms),
        pose.len() == 4 || pose.len() == 5,
        pose_after(acts.take(j), at).len() == pose.len(),
        crate::cosines::are_cosines(cosines),
    ensures
        turn_at(
            play(acts, at, cosines),
            play(acts.take(j), at, cosines).len() as int,
            message,
            pose_after(acts.take(j), at),
            pose,
            ms,
            cosines,
        ),
        play(acts.take(j + 3), at, cosines).len() == play(acts.take(j), at, cosines).len() + 2
            + move_len(pose.len(), cosines.len()),
        pose_after(acts.take(j + 3), at) == pose,
{
    law_act_at(acts, j, at, cosines);
    law_act_at(acts, j + 1, at, cosines);
    law_act_at(acts, j + 2, at, cosines);
}

/// Before the first act nothing has happened.
pub proof fn lemma_before_acts(acts: Seq<Act>, at: Seq<u16>, cosines: Seq<Single>)
    ensures
        play(acts.take(0), at, cosines).len() == 0,
        pose_after(acts.take(0), at) == at,
        acts.take(acts.len() as int) == acts,
{
    assert(acts.take(acts.len() as int) =~= acts);
}

/// Turns come behind their lead.
pub proof fn lemma_turns_lead(
    lead: Seq<Act>,
    turn: spec_fn(int) -> (Option<Message>, Seq<u16>, u32),
    n: nat,
)
    ensures
        turns(lead, turn, n).len() >= lead.len(),
        turns(lead, turn, n).take(lead.len() as int) == lead,
    decreases n,
{
    if n > 0 {
        lemma_turns_lead(lead, turn, (n - 1) as nat);
        let before = turns(lead, turn, (n - 1) as nat);
        assert(turns(lead, turn, n).take(lead.len() as int) =~= before.take(lead.len() as int));
    } else {
        assert(lead.take(lead.len() as int) =~= lead);
    }
}

} // verus!
