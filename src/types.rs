use vstd::prelude::*;

verus! {

/// Per-unit command state; also the player's current input mode.
#[derive(Clone, Copy, Debug, PartialEq, Eq, Structural)]
pub enum Mode {
    Select,
    Move,
    Attack,
    Hold,
    Build,
    Ctrl,
    Add,
}

/// Faction of a unit: units of one faction never target each other.
#[derive(Clone, Copy, Debug, PartialEq, Eq, Structural)]
pub enum Race {
    Bionic,
    Bug,
    Alien,
}

/// Unit type, used to select units of one kind together.
#[derive(Clone, Copy, Debug, PartialEq, Eq, Structural)]
pub enum UnitKind {
    Blademaster,
    Strider,
    FleshSpider,
    Trooper,
}

/// A display color, eight bits per channel.
#[derive(Clone, Copy, Debug, PartialEq, Eq, Structural)]
pub struct Color {
    pub r: u8,
    pub g: u8,
    pub b: u8,
}

/// A channel brightened by half, saturating at full intensity.
pub open spec fn bright_channel(c: u8) -> u8 {
    if c as int + c as int / 2 > 255 {
        255
    } else {
        (c as int + c as int / 2) as u8
    }
}

fn brighten_channel(c: u8) -> (r: u8)
    ensures
        r == bright_channel(c),
{
    let v: u16 = c as u16 + c as u16 / 2;
    if v > 255 {
        255
    } else {
        v as u8
    }
}

impl Color {
    pub fn new(r: u8, g: u8, b: u8) -> (c: Color)
        ensures
            c == (Color { r, g, b }),
    {
        Color { r, g, b }
    }

    pub open spec fn brightened_spec(self) -> Color {
        Color { r: bright_channel(self.r), g: bright_channel(self.g), b: bright_channel(self.b) }
    }

    /// Each channel brightened by half, saturating.
    pub fn brightened(&self) -> (c: Color)
        ensures
            c == self.brightened_spec(),
    {
        Color {
            r: brighten_channel(self.r),
            g: brighten_channel(self.g),
            b: brighten_channel(self.b),
        }
    }
}

} // verus!
