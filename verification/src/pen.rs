//! The pen, and the turntable.

use crate::tool::{clamp, clamped};
use vstd::prelude::*;

verus! {

/// The number 1.
pub const FULL: u32 = 0x3f80_0000;

/// The number 0.05: the lightest touch still leaves a mark.
pub const LIGHTEST: u32 = 0x3d4c_cccd;

/// The last that was heard of the pen. Numbers are binary32 bit patterns.
#[derive(Copy, Clone, Debug, PartialEq, Eq, Structural)]
pub struct PenState {
    /// Pressure from zero to one; one without a pen.
    pub pressure: u32,
    /// Angle to the surface, if known.
    pub altitude_rad: Option<u32>,
    /// The pressure is that of a pen.
    pub from_stylus: bool,
}

impl Default for PenState {
    fn default() -> (r: PenState)
        ensures
            r == PenState::away(),
    {
        PenState { pressure: FULL, altitude_rad: None, from_stylus: false }
    }
}

/// What happened to a touch.
#[derive(Copy, Clone, Debug, PartialEq, Eq, Structural)]
pub enum TouchPhase {
    Started,
    Moved,
    Ended,
    Canceled,
}

/// How hard a touch is, and at which angle if that is known.
#[derive(Copy, Clone, Debug, PartialEq, Eq, Structural)]
pub struct Force {
    pub pressure: u32,
    pub altitude_rad: Option<u32>,
}

impl PenState {
    /// No pen is there.
    pub open spec fn away() -> PenState {
        PenState { pressure: FULL, altitude_rad: None, from_stylus: false }
    }

    /// The pen after a touch: one with a force is that of a pen, one without it does
    /// not take the place of a pen, and the end of a touch takes the pen away.
    pub open spec fn touched(self, phase: TouchPhase, force: Option<Force>) -> PenState {
        match phase {
            TouchPhase::Started | TouchPhase::Moved => match force {
                Some(f) => PenState {
                    pressure: f.pressure,
                    altitude_rad: f.altitude_rad,
                    from_stylus: true,
                },
                None => if self.from_stylus {
                    self
                } else {
                    PenState { pressure: FULL, altitude_rad: None, ..self }
                },
            },
            TouchPhase::Ended | TouchPhase::Canceled => PenState::away(),
        }
    }

    /// Take in a touch.
    pub fn touch(&mut self, phase: TouchPhase, force: Option<Force>)
        ensures
            *final(self) == old(self).touched(phase, force),
    {
        match phase {
            TouchPhase::Started | TouchPhase::Moved => match force {
                Some(f) => {
                    self.pressure = f.pressure;
                    self.altitude_rad = f.altitude_rad;
                    self.from_stylus = true;
                },
                None => {
                    if !self.from_stylus {
                        self.pressure = FULL;
                        self.altitude_rad = None;
                    }
                },
            },
            TouchPhase::Ended | TouchPhase::Canceled => {
                self.pressure = FULL;
                self.altitude_rad = None;
                self.from_stylus = false;
            },
        }
    }

    /// The part of the full depth that a stamp goes in.
    pub fn depth_scale(&self, use_pressure: bool) -> (r: u32)
        ensures
            r == (if use_pressure {
                clamped(self.pressure, LIGHTEST, FULL)
            } else {
                FULL
            }),
    {
        if !use_pressure {
            return FULL;
        }
        clamp(self.pressure, LIGHTEST, FULL)
    }
}

/// How the table turns.
#[derive(Copy, Clone, Debug, PartialEq, Eq, Structural)]
pub enum Turn {
    Still,
    Left,
    Right,
}

/// How the table turns, given which keys are held: not at all while the panels have
/// the keyboard, and not when both pull.
pub fn turn_of(left: bool, right: bool, captured: bool) -> (r: Turn)
    ensures
        r == (if captured || left == right {
            Turn::Still
        } else if left {
            Turn::Left
        } else {
            Turn::Right
        }),
{
    if captured || left == right {
        Turn::Still
    } else if left {
        Turn::Left
    } else {
        Turn::Right
    }
}

/// A pen that presses is felt as it presses; while it stays down without a word of its force it
/// is felt as before, and a finger is felt in full. What is lifted leaves nothing behind.
pub proof fn law_pen_is_felt(pen: PenState, phase: TouchPhase, force: Option<Force>)
    ensures
        ({
            let r = pen.touched(phase, force);
            let down = phase == TouchPhase::Started || phase == TouchPhase::Moved;
            &&& !down ==> r == (PenState {
                pressure: 0x3f80_0000,
                altitude_rad: None,
                from_stylus: false,
            })
            &&& down && force is Some ==> r.pressure == force->0.pressure && r.altitude_rad
                == force->0.altitude_rad && r.from_stylus
            &&& down && force is None && pen.from_stylus ==> r == pen
            &&& down && force is None && !pen.from_stylus ==> r.pressure == 0x3f80_0000
                && r.altitude_rad is None && !r.from_stylus
        }),
{
}

} // verus!
