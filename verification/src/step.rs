//! What a plan consists of: writes to the servo board, pauses and reports.

use vstd::prelude::*;

verus! {

/// An output of the servo board, or all of them at once.
#[derive(Clone, Copy, PartialEq, Eq, Structural, Debug)]
pub enum Channel {
    C0,
    C1,
    C2,
    C3,
    C4,
    C5,
    C6,
    C7,
    C8,
    C9,
    C10,
    C11,
    C12,
    C13,
    C14,
    C15,
    All,
}

/// Something to tell the operator, with the values that belong to it.
#[derive(Clone, Copy, PartialEq, Eq, Structural, Debug)]
pub enum Message {
    /// A command packet came in.
    Received { motor_id: u8, x_angle: u8, y_angle: u8, checksum: u8 },
    /// The angle that a pulse is calculated from, after limiting.
    AngleLimited { angle: u32 },
    /// The pulse before limiting.
    PulseRaw { pulse: u32 },
    /// The pulse after limiting.
    PulseLimited { pulse: u32 },
    /// The pulse is below the working range.
    PulseLow { pulse: u32 },
    /// The pulse is above the working range.
    PulseHigh { pulse: u32 },
    /// The pulse that a packet asks for.
    PulseChosen { count: u16 },
    /// A packet names a motor that does not exist.
    UnknownMotor { motor_id: u8 },
    /// Shoulder and elbow start to move together.
    PairStart { from_1: u16, to_1: u16, from_2: u16, to_2: u16 },
    PairDone,
    /// Four joints start to move together.
    FourStart,
    FourDone,
    SpiralStart,
    /// The spiral practice enters a stage, with its four targets.
    SpiralStage { stage: u16, c1: u16, c2: u16, c3: u16, c4: u16 },
    SpiralDone,
    AppleStart,
    /// The apple routine enters a stage.
    AppleStage { stage: u16 },
    AppleDone,
    UprightStart,
    UprightTilt,
    UprightTurn { c4: u16, c5: u16 },
    UprightHome,
    PillarStart,
    PillarTilt,
    PillarTurn { c4: u16, c5: u16 },
    PillarDone,
    StableStart,
    StableTilt,
    StableTurn { c4: u16, c5: u16 },
    StableDone,
    PeelStart,
    PeelTurn { c2: u16, c4: u16, c5: u16 },
    PeelDone,
    CoolStart,
    CoolDone,
    SoloStart,
    SoloForth { c5: u16 },
    SoloBack { c5: u16 },
    SoloDone,
}

/// One action of a plan. A plan is carried out in order.
#[derive(Clone, Copy, PartialEq, Eq, Structural, Debug)]
pub enum Step {
    /// Set the counts at which a channel switches on and off. A failure ends the program.
    Write { channel: Channel, on: u16, off: u16 },
    /// As `Write`, but a failure is only reported.
    TryWrite { channel: Channel, on: u16, off: u16 },
    /// Set the duty of the timer output.
    Duty { duty: u32 },
    /// Wait.
    Pause { ms: u32 },
    /// Tell the operator.
    Say(Message),
}

} // verus!
