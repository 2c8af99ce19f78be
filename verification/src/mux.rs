//! The channels of the multiplexer and the select lines that address them.
//!
//! Two select lines choose which of three devices the shared pin of the multiplexer
//! reaches: the red light, the green light or the temperature sensor. Driving the
//! lines and the pin is left to the caller.

use crate::protocol::Level;
use vstd::prelude::*;

verus! {

/// What the shared pin can be connected to.
#[derive(Clone, Copy, Debug, PartialEq, Eq, Structural)]
pub enum Channel {
    RedLED,
    GreenLED,
    TempSensor,
}

/// The levels of the two select lines; `true` is high.
#[derive(Clone, Copy, Debug, PartialEq, Eq, Structural)]
pub struct SelectLines {
    pub s0: bool,
    pub s1: bool,
}

impl Channel {
    /// The select lines that address the channel.
    pub open spec fn lines(self) -> SelectLines {
        match self {
            Channel::RedLED => SelectLines { s0: false, s1: false },
            Channel::GreenLED => SelectLines { s0: true, s1: false },
            Channel::TempSensor => SelectLines { s0: false, s1: true },
        }
    }

    /// The select lines that address the channel.
    pub fn select(self) -> (lines: SelectLines)
        ensures
            lines == self.lines(),
    {
        match self {
            Channel::RedLED => SelectLines { s0: false, s1: false },
            Channel::GreenLED => SelectLines { s0: true, s1: false },
            Channel::TempSensor => SelectLines { s0: false, s1: true },
        }
    }

    /// Whether the channel is sampled: the sensor is read, the lights are driven.
    pub fn is_input(self) -> (input: bool)
        ensures
            input == (self == Channel::TempSensor),
    {
        match self {
            Channel::TempSensor => true,
            _ => false,
        }
    }

    /// The light that shows a level: green for normal, red for alert.
    pub fn indicator(level: Level) -> (channel: Channel)
        ensures
            channel == (match level {
                Level::Normal => Channel::GreenLED,
                Level::Alert => Channel::RedLED,
            }),
    {
        match level {
            Level::Normal => Channel::GreenLED,
            Level::Alert => Channel::RedLED,
        }
    }
}

/// No two channels share their select lines.
pub proof fn lemma_channels_apart(a: Channel, b: Channel)
    ensures
        a.lines() == b.lines() <==> a == b,
{
}

} // verus!
