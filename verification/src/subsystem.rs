//! The three subsystems of a board: analog output, analog input and
//! digital output.
//!
//! Each subsystem is addressed through a handle of the caller's choice (the
//! driver's own pointer to it). Starting a subsystem does not touch the
//! board here: it yields the [`StartCall`] that the caller hands to the
//! driver's start entry point.
use vstd::prelude::*;

verus! {

/// The arguments of a driver start request: the subsystem to start, and
/// the follower flag in the driver's C encoding (`1` to follow another
/// subsystem's sample clock, `0` to run on its own clock).
#[derive(Clone, Copy, Debug, PartialEq, Eq)]
pub struct StartCall<H> {
    pub handle: H,
    pub follower: u8,
}

/// The C encoding of a boolean flag: `1` for true, `0` for false.
pub open spec fn c_flag(b: bool) -> u8 {
    if b { 1 } else { 0 }
}

/// The start request that starting `handle` issues, as a follower or not.
pub open spec fn start_call<H>(handle: H, follower: bool) -> StartCall<H> {
    StartCall { handle, follower: c_flag(follower) }
}

/// Converts a flag to the driver's C encoding.
fn to_c_flag(b: bool) -> (r: u8)
    ensures
        r == c_flag(b),
{
    if b { 1 } else { 0 }
}

/// The analog output subsystem of a board.
#[derive(Clone, Copy, Debug)]
pub struct AnalogOutput<H>(pub H);

/// The analog input subsystem of a board.
#[derive(Clone, Copy, Debug)]
pub struct AnalogInput<H>(pub H);

/// The digital output subsystem of a board.
#[derive(Clone, Copy, Debug)]
pub struct DigitalOutput<H>(pub H);

impl<H: Copy> AnalogOutput<H> {
    /// Starts the output on its own sample clock.
    pub fn start(&self) -> (r: StartCall<H>)
        ensures
            r == start_call(self.0, false),
            r.follower == 0,
    {
        self.start_as_follower(false)
    }

    /// Starts the output, following another subsystem's clock when
    /// `follower` is set.
    pub fn start_as_follower(&self, follower: bool) -> (r: StartCall<H>)
        ensures
            r == start_call(self.0, follower),
    {
        StartCall { handle: self.0, follower: to_c_flag(follower) }
    }
}

impl<H: Copy> AnalogInput<H> {
    /// Starts streaming acquisition on the input's own sample clock.
    pub fn start_stream(&self) -> (r: StartCall<H>)
        ensures
            r == start_call(self.0, false),
            r.follower == 0,
    {
        self.start_as_follower(false)
    }

    /// Starts streaming acquisition, following another subsystem's clock
    /// when `follower` is set.
    pub fn start_as_follower(&self, follower: bool) -> (r: StartCall<H>)
        ensures
            r == start_call(self.0, follower),
    {
        StartCall { handle: self.0, follower: to_c_flag(follower) }
    }
}

impl<H: Copy> DigitalOutput<H> {
    /// Starts the output on its own sample clock.
    pub fn start(&self) -> (r: StartCall<H>)
        ensures
            r == start_call(self.0, false),
            r.follower == 0,
    {
        self.start_as_follower(false)
    }

    /// Starts the output, following another subsystem's clock when
    /// `follower` is set.
    pub fn start_as_follower(&self, follower: bool) -> (r: StartCall<H>)
        ensures
            r == start_call(self.0, follower),
    {
        StartCall { handle: self.0, follower: to_c_flag(follower) }
    }
}

} // verus!
