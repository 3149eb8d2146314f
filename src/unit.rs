use vstd::prelude::*;

use crate::types::{Race, UnitKind};

verus! {

/// Speed of a unit that is given none, in thousandths of a cell per second.
pub const DEFAULT_SPEED: u32 = 10_000;

/// Combat stats of a unit.
#[derive(Clone, Copy, Debug)]
pub struct Unit {
    pub race: Race,
    pub kind: UnitKind,
    pub hp: i32,
    pub damage: Option<i32>,
    pub min_range: u32,
    pub max_range: u32,
    /// Thousandths of a cell per second.
    pub speed: u32,
    /// Milliseconds since the last attack.
    pub tic: u64,
}

/// `a` lowered by `b` when `b` is positive, saturating at `i32::MIN`; hit
/// points never rise.
pub open spec fn sat_sub(a: i32, b: i32) -> i32 {
    if b <= 0 {
        a
    } else if a - b < i32::MIN {
        i32::MIN
    } else {
        (a - b) as i32
    }
}

/// `a + b`, saturating at the bound of `u32`.
pub open spec fn sat_add_u32(a: u32, b: u32) -> u32 {
    if a + b > u32::MAX {
        u32::MAX
    } else {
        (a + b) as u32
    }
}

impl Unit {
    /// Radius of the attack trigger.
    pub open spec fn attack_radius(self) -> u32 {
        self.max_range
    }

    /// Radius of the follow trigger: the two ends of the band together.
    pub open spec fn follow_radius(self) -> u32 {
        sat_add_u32(self.min_range, self.max_range)
    }

    pub open spec fn harmed_by(self, d: i32) -> Unit {
        Unit { hp: sat_sub(self.hp, d), ..self }
    }

    pub open spec fn ticked(self, dt: u32) -> Unit {
        Unit {
            tic: if self.tic + dt > u64::MAX {
                u64::MAX
            } else {
                (self.tic + dt) as u64
            },
            ..self
        }
    }

    pub open spec fn rearmed(self) -> Unit {
        Unit { tic: 0, ..self }
    }

    /// A unit with `hp` hit points that deals no damage, with an empty
    /// range band and the default speed.
    pub fn new(race: Race, kind: UnitKind, hp: i32) -> (u: Unit)
        ensures
            u == (Unit {
                race,
                kind,
                hp,
                damage: None,
                min_range: 0,
                max_range: 0,
                speed: DEFAULT_SPEED,
                tic: 0,
            }),
    {
        Unit { race, kind, hp, damage: None, min_range: 0, max_range: 0, speed: DEFAULT_SPEED, tic: 0 }
    }

    pub fn with_damage(self, damage: i32) -> (u: Unit)
        ensures
            u == (Unit { damage: Some(damage), ..self }),
    {
        Unit { damage: Some(damage), ..self }
    }

    pub fn with_range(self, min: u32, max: u32) -> (u: Unit)
        ensures
            u == (Unit { min_range: min, max_range: max, ..self }),
    {
        Unit { min_range: min, max_range: max, ..self }
    }

    pub fn with_speed(self, speed: u32) -> (u: Unit)
        ensures
            u == (Unit { speed, ..self }),
    {
        Unit { speed, ..self }
    }

    pub fn race(&self) -> (r: Race)
        ensures
            r == self.race,
    {
        self.race
    }

    pub fn kind(&self) -> (r: UnitKind)
        ensures
            r == self.kind,
    {
        self.kind
    }

    pub fn hp(&self) -> (r: i32)
        ensures
            r == self.hp,
    {
        self.hp
    }

    pub fn speed(&self) -> (r: u32)
        ensures
            r == self.speed,
    {
        self.speed
    }

    /// The damage the unit deals, if it can deal any.
    pub fn attack(&self) -> (r: Option<i32>)
        ensures
            r == self.damage,
    {
        self.damage
    }

    pub fn range(&self) -> (r: u32)
        ensures
            r == self.attack_radius(),
    {
        self.max_range
    }

    pub fn follow_dist(&self) -> (r: u32)
        ensures
            r == self.follow_radius(),
    {
        self.min_range.saturating_add(self.max_range)
    }

    /// Takes `d` points of damage; a damage that is not positive does nothing.
    pub fn harm(&mut self, d: i32)
        ensures
            *final(self) == old(self).harmed_by(d),
            final(self).hp <= old(self).hp,
    {
        if d > 0 {
            let v: i64 = self.hp as i64 - d as i64;
            self.hp = if v < i32::MIN as i64 {
                i32::MIN
            } else {
                v as i32
            };
        }
    }

    /// Restarts the attack cooldown.
    pub fn reset_tic(&mut self)
        ensures
            *final(self) == old(self).rearmed(),
    {
        self.tic = 0;
    }

    /// Advances the attack cooldown by `dt` milliseconds.
    pub fn tic(&mut self, dt: u32)
        ensures
            *final(self) == old(self).ticked(dt),
    {
        self.tic = self.tic.saturating_add(dt as u64);
    }
}

} // verus!
