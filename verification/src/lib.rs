//! Simulation core of a card-stacking crafting game.
//!
//! Cards are piled into ordered stacks; stacks can be split, merged and
//! dragged, and a registry of recipes watches stack contents to start, time
//! and apply crafting effects. All world coordinates are fixed-point
//! integers: one world unit is [`geom::UNIT`] coordinate steps, which keeps
//! the geometry exact and free of rounding surprises.

use vstd::prelude::*;

pub mod card;
pub mod card_packs;
pub mod drag;
pub mod geom;
pub mod procedural;
pub mod recipe;
pub mod recipe_defines;
pub mod stack_store;

verus! {

/// Selectable simulation speed. The game remembers the chosen speed while
/// paused, so pausing is a separate flag on [`TimeSpeed`].
#[derive(Clone, Copy, PartialEq, Eq, Structural, Debug)]
pub enum Speed {
    Normal,
    Double,
    Triple,
}

/// Whether simulated time advances, and how fast it runs when it does.
#[derive(Clone, Copy, PartialEq, Eq, Structural, Debug)]
pub struct TimeSpeed {
    pub running: bool,
    pub speed: Speed,
}

impl TimeSpeed {
    /// Multiplier that the chosen speed applies to elapsed time.
    /// Does not take into account being paused.
    pub fn as_factor(&self) -> (r: u64)
        ensures
            r == self.spec_factor(),
    {
        match self.speed {
            Speed::Normal => 1,
            Speed::Double => 2,
            Speed::Triple => 3,
        }
    }

    /// Multiplier that actually applies this tick: zero while paused.
    pub fn effective_factor(&self) -> (r: u64)
        ensures
            r == self.spec_effective_factor(),
    {
        if self.running {
            self.as_factor()
        } else {
            0
        }
    }

    pub open spec fn spec_factor(self) -> u64 {
        match self.speed {
            Speed::Normal => 1,
            Speed::Double => 2,
            Speed::Triple => 3,
        }
    }

    pub open spec fn spec_effective_factor(self) -> u64 {
        if self.running {
            self.spec_factor()
        } else {
            0
        }
    }

    /// Pausing and unpausing keeps the chosen speed.
    pub fn toggle_pause(&mut self)
        ensures
            final(self).running == !old(self).running,
            final(self).speed == old(self).speed,
    {
        self.running = !self.running;
    }

    /// Selecting a speed also resumes a paused game.
    pub fn select_speed(&mut self, speed: Speed)
        ensures
            final(self).running,
            final(self).speed == speed,
    {
        self.running = true;
        self.speed = speed;
    }
}

/// Resource that keeps track of which day it is, and how far along the day
/// we are. `time_of_day_ms` runs from zero up to the configured day length.
#[derive(Clone, Copy, PartialEq, Eq, Structural, Debug)]
pub struct TimeOfDay {
    pub day: u32,
    pub time_of_day_ms: u64,
}

/// Advances the day clock by one tick of game time (wall-clock delta scaled
/// by the speed factor, zero while paused), rolling over into the next day
/// when the configured day length is reached.
pub fn time_of_day_progress_system(
    days: &mut TimeOfDay,
    speed: &TimeSpeed,
    length_of_day_ms: u64,
    delta_ms: u64,
)
    requires
        delta_ms < 0x1_0000_0000,
        old(days).time_of_day_ms < length_of_day_ms,
        0 < length_of_day_ms < 0x1000_0000_0000_0000,
        old(days).day < 0xFFFF_FFFF,
    ensures
        ({
            let advanced = old(days).time_of_day_ms + delta_ms * speed.spec_effective_factor();
            if advanced >= length_of_day_ms {
                final(days).time_of_day_ms == advanced - length_of_day_ms && final(days).day == old(
                    days,
                ).day + 1
            } else {
                final(days).time_of_day_ms == advanced && final(days).day == old(days).day
            }
        }),
{
    let advanced = days.time_of_day_ms + delta_ms * speed.effective_factor();
    if advanced >= length_of_day_ms {
        days.time_of_day_ms = advanced - length_of_day_ms;
        days.day = days.day + 1;
    } else {
        days.time_of_day_ms = advanced;
    }
}

} // verus!
