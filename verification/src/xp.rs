//! The experience-point formula.

use vstd::prelude::*;
use crate::types::Difficulty;

verus! {

/// The experience floor: no run earns less.
pub const MIN_XP: u64 = 10;

/// The largest award the formula can give: a flawless instant Nightmare run.
pub const MAX_XP: u64 = 450;

/// Base experience of a difficulty.
pub open spec fn spec_base_xp(difficulty: Difficulty) -> int {
    match difficulty {
        Difficulty::Easy => 75,
        Difficulty::Medium => 100,
        Difficulty::Hard => 125,
        Difficulty::Nightmare => 150,
    }
}

/// Bonus for finishing under two minutes: the base scaled by the share of the
/// 120 seconds left over, rounded down.
pub open spec fn spec_time_bonus(base: int, time_ms: int, completed: bool) -> int {
    let time_secs = time_ms / 1000;
    if completed && time_secs < 120 {
        base * (120 - time_secs) / 120
    } else {
        0
    }
}

/// Ten percent is lost per death, at most fifty.
pub open spec fn spec_death_penalty(deaths: int) -> int {
    if deaths * 10 < 50 {
        deaths * 10
    } else {
        50
    }
}

/// Experience earned by a run: base, completion bonus and time bonus, scaled by
/// what the deaths leave, and never under [`MIN_XP`].
pub open spec fn spec_calculate_xp(
    difficulty: Difficulty,
    time_ms: int,
    deaths: int,
    completed: bool,
) -> int {
    let base = spec_base_xp(difficulty);
    let completion_bonus = if completed { base } else { 0 };
    let time_bonus = spec_time_bonus(base, time_ms, completed);
    let raw = (base + completion_bonus + time_bonus) * (100 - spec_death_penalty(deaths)) / 100;
    if raw < 10 { 10 } else { raw }
}

impl Difficulty {
    /// Base experience of this difficulty.
    pub fn base_xp(&self) -> (base: u64)
        ensures
            base == spec_base_xp(*self),
    {
        match self {
            Difficulty::Easy => 75,
            Difficulty::Medium => 100,
            Difficulty::Hard => 125,
            Difficulty::Nightmare => 150,
        }
    }

    /// Experience earned by a run of this difficulty.
    pub fn calculate_xp(&self, time_ms: u64, deaths: u32, completed: bool) -> (xp: u64)
        ensures
            xp == spec_calculate_xp(*self, time_ms as int, deaths as int, completed),
            MIN_XP <= xp <= MAX_XP,
    {
        let base: u64 = self.base_xp();
        let completion_bonus: u64 = if completed { base } else { 0 };
        let time_secs: u64 = time_ms / 1000;
        let time_bonus: u64 = if completed && time_secs < 120 {
            base * (120 - time_secs) / 120
        } else {
            0
        };
        let death_penalty: u64 = if deaths < 5 { deaths as u64 * 10 } else { 50 };
        let death_multiplier: u64 = 100 - death_penalty;
        assert(time_bonus <= base) by (nonlinear_arith)
            requires
                time_bonus == 0 || (time_secs < 120 && time_bonus == base * (120 - time_secs) / 120),
                0 <= time_secs,
                0 <= base,
        ;
        assert((base + completion_bonus + time_bonus) * death_multiplier <= 45000) by (nonlinear_arith)
            requires
                base + completion_bonus + time_bonus <= 450,
                death_multiplier <= 100,
        ;
        let raw: u64 = (base + completion_bonus + time_bonus) * death_multiplier / 100;
        if raw < 10 { 10 } else { raw }
    }
}

/// No run earns less than [`MIN_XP`] or more than [`MAX_XP`].
pub proof fn lemma_xp_bounds(difficulty: Difficulty, time_ms: int, deaths: int, completed: bool)
    requires
        0 <= time_ms,
        0 <= deaths,
    ensures
        MIN_XP <= spec_calculate_xp(difficulty, time_ms, deaths, completed) <= MAX_XP,
{
    let base = spec_base_xp(difficulty);
    let completion_bonus = if completed { base } else { 0 };
    let time_bonus = spec_time_bonus(base, time_ms, completed);
    let multiplier = 100 - spec_death_penalty(deaths);
    let time_secs = time_ms / 1000;
    assert(0 <= time_bonus <= base) by (nonlinear_arith)
        requires
            time_bonus == 0 || (0 <= time_secs < 120 && time_bonus == base * (120 - time_secs) / 120),
            0 <= base,
    ;
    assert(50 <= multiplier <= 100);
    assert(0 <= (base + completion_bonus + time_bonus) * multiplier <= 45000) by (nonlinear_arith)
        requires
            0 <= base + completion_bonus + time_bonus <= 450,
            50 <= multiplier <= 100,
    ;
}

} // verus!
