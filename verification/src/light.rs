//! The state of a light and the operations that change it.

use crate::error::DeviceError;
use vstd::prelude::*;

verus! {

/// The highest brightness, in percent.
pub const MAX_BRIGHTNESS: u8 = 100;

/// The lowest colour temperature, in the unit of the device.
pub const MIN_TEMPERATURE: u16 = 143;

/// The highest colour temperature, in the unit of the device.
pub const MAX_TEMPERATURE: u16 = 344;

/// The state of one light as the device reports and accepts it.
#[derive(Clone, Copy, Debug, PartialEq, Eq, Structural)]
pub struct Light {
    /// Zero when the light is off.
    pub on: u8,
    /// Brightness in percent.
    pub brightness: u8,
    /// Colour temperature in the unit of the device.
    pub temperature: u16,
}

/// What a command asks of every light it reaches.
#[derive(Clone, Copy, Debug, PartialEq, Eq, Structural)]
pub enum Operation {
    /// Switch on, at this brightness and colour temperature.
    On { brightness: u8, temperature: u16 },
    /// Switch off.
    Off,
    /// Change the brightness by this many percent, up or down.
    Brightness { delta: i8 },
    /// Set the colour temperature.
    Temperature { temperature: u16 },
    /// Report the state; change nothing.
    Status,
}

/// The value of the range from `low` to `high` that is nearest to
/// `value`.
pub open spec fn clamp(value: int, low: int, high: int) -> int {
    if value < low {
        low
    } else if value > high {
        high
    } else {
        value
    }
}

/// The brightness that results from changing `current` by `delta`: the
/// sum, held within 0 and 100.
pub open spec fn adjusted_brightness(current: u8, delta: i8) -> u8 {
    clamp(current + delta, 0, MAX_BRIGHTNESS as int) as u8
}

/// The colour temperature nearest to `wanted` that the device accepts.
pub open spec fn accepted_temperature(wanted: u16) -> u16 {
    clamp(wanted as int, MIN_TEMPERATURE as int, MAX_TEMPERATURE as int) as u16
}

impl Operation {
    /// Whether the operation changes the light.
    pub open spec fn changes(self) -> bool {
        self !is Status
    }

    /// Whether the operation has to know the current state of the light:
    /// every operation but switching on with given values.
    pub open spec fn reads(self) -> bool {
        self !is On
    }

    /// The state that the operation asks for whatever the current state
    /// is, for an operation that need not know it.
    pub open spec fn absolute(self) -> Option<Light> {
        match self {
            Operation::On { .. } => Some(
                self.desired(Light { on: 0, brightness: 0, temperature: 0 }),
            ),
            _ => None,
        }
    }

    /// The state that the operation asks for, given the current state.
    /// Any change of brightness or colour temperature also switches the
    /// light on. An operation that changes nothing asks for the current
    /// state.
    pub open spec fn desired(self, current: Light) -> Light {
        match self {
            Operation::On { brightness, temperature } => Light {
                on: 1,
                brightness: clamp(brightness as int, 0, MAX_BRIGHTNESS as int) as u8,
                temperature: accepted_temperature(temperature),
            },
            Operation::Off => Light { on: 0, ..current },
            Operation::Brightness { delta } => Light {
                on: 1,
                brightness: adjusted_brightness(current.brightness, delta),
                ..current
            },
            Operation::Temperature { temperature } => Light {
                on: 1,
                temperature: accepted_temperature(temperature),
                ..current
            },
            Operation::Status => current,
        }
    }

    /// Executable form of [`Operation::changes`].
    pub fn is_change(&self) -> (changes: bool)
        ensures
            changes == self.changes(),
    {
        match self {
            Operation::Status => false,
            _ => true,
        }
    }

    /// Computes the state that the operation asks for whatever the
    /// current state is, if it need not know it.
    pub fn fixed(&self) -> (wanted: Option<Light>)
        ensures
            wanted == self.absolute(),
            wanted is None <==> self.reads(),
    {
        match self {
            Operation::On { .. } => Some(
                self.apply(Light { on: 0, brightness: 0, temperature: 0 }),
            ),
            _ => None,
        }
    }

    /// Computes the state that the operation asks for.
    pub fn apply(&self, current: Light) -> (wanted: Light)
        ensures
            wanted == self.desired(current),
    {
        match self {
            Operation::On { brightness, temperature } => Light {
                on: 1,
                brightness: if *brightness > MAX_BRIGHTNESS {
                    MAX_BRIGHTNESS
                } else {
                    *brightness
                },
                temperature: limit_temperature(*temperature),
            },
            Operation::Off => Light {
                on: 0,
                brightness: current.brightness,
                temperature: current.temperature,
            },
            Operation::Brightness { delta } => Light {
                on: 1,
                brightness: adjust_brightness(current.brightness, *delta),
                temperature: current.temperature,
            },
            Operation::Temperature { temperature } => Light {
                on: 1,
                brightness: current.brightness,
                temperature: limit_temperature(*temperature),
            },
            Operation::Status => current,
        }
    }
}

/// A change of brightness saturates: the result is the sum where that
/// lies within 0 and 100, and otherwise the end of the range that the
/// sum went past. It never wraps around and never fails.
pub proof fn lemma_brightness_saturates(current: u8, delta: i8)
    ensures
        0 <= adjusted_brightness(current, delta) <= 100,
        0 <= current + delta <= 100 ==> adjusted_brightness(current, delta) == current + delta,
        current + delta > 100 ==> adjusted_brightness(current, delta) == 100,
        current + delta < 0 ==> adjusted_brightness(current, delta) == 0,
{
}

/// Switching on with given values asks for the same state whatever the
/// current state is.
pub proof fn lemma_absolute(operation: Operation, current: Light)
    ensures
        operation.absolute() matches Some(wanted) ==> operation.desired(current) == wanted,
        operation.absolute() is None <==> operation.reads(),
{
}

/// Every state that an operation asks for is within what the device
/// accepts, unless the operation leaves the light as it is or only
/// touches other parts of the state.
pub proof fn lemma_desired_in_range(operation: Operation, current: Light)
    ensures
        operation is On || operation is Brightness ==> operation.desired(current).brightness
            <= MAX_BRIGHTNESS,
        operation is On || operation is Temperature ==> MIN_TEMPERATURE <= operation.desired(
            current,
        ).temperature <= MAX_TEMPERATURE,
        operation is Off ==> operation.desired(current).on == 0,
        operation.changes() && operation !is Off ==> operation.desired(current).on == 1,
{
}

/// Changes a brightness by `delta` percent and holds the result within 0
/// and 100.
pub fn adjust_brightness(current: u8, delta: i8) -> (adjusted: u8)
    ensures
        adjusted == adjusted_brightness(current, delta),
{
    let sum: i16 = current as i16 + delta as i16;
    if sum < 0 {
        0
    } else if sum > 100 {
        MAX_BRIGHTNESS
    } else {
        sum as u8
    }
}

/// Holds a colour temperature within what the device accepts.
pub fn limit_temperature(wanted: u16) -> (accepted: u16)
    ensures
        accepted == accepted_temperature(wanted),
{
    if wanted < MIN_TEMPERATURE {
        MIN_TEMPERATURE
    } else if wanted > MAX_TEMPERATURE {
        MAX_TEMPERATURE
    } else {
        wanted
    }
}

/// The state of the light that a status document describes: that of its
/// first light. A document without lights describes none.
pub open spec fn reported(lights: Seq<Light>) -> Result<Light, DeviceError> {
    if lights.len() == 0 {
        Err(DeviceError::EmptyResponse)
    } else {
        Ok(lights[0])
    }
}

/// Picks the light that a status document describes.
pub fn first_light(lights: &Vec<Light>) -> (light: Result<Light, DeviceError>)
    ensures
        light == reported(lights@),
{
    if lights.len() == 0 {
        Err(DeviceError::EmptyResponse)
    } else {
        Ok(lights[0])
    }
}

impl Light {
    /// Whether the light is on.
    pub open spec fn lit(self) -> bool {
        self.on != 0
    }

    /// Executable form of [`Light::lit`].
    pub fn is_on(&self) -> (on: bool)
        ensures
            on == self.lit(),
    {
        self.on != 0
    }
}

} // verus!
