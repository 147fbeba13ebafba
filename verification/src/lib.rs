//! Motion planning for a hobby servo arm: plans of writes, pauses and reports, computed without
//! input or output.

pub mod arm;
pub mod cosines;
pub mod curve;
pub mod glide;
pub mod number;
pub mod packet;
pub mod pulse;
pub mod ramp;
pub mod routines;
pub mod script;
pub mod single;
pub mod step;
