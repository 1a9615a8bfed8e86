//! How a dungeon encounter ends.
use vstd::prelude::*;

verus! {

/// Score awarded for clearing a dungeon.
pub const WIN_SCORE: u32 = 20;

#[derive(Clone, Copy, Debug, PartialEq, Eq, Structural)]
pub enum CombatOutcome {
    Win { score: u32 },
    Lost,
}

/// The outcome of an encounter after one frame. An encounter that has ended
/// stays as it ended. Otherwise the timer running out wins it, the lose key
/// loses it (and overrides the win key), the win key wins it, and with
/// neither pressed it goes on.
pub open spec fn spec_update_outcome(
    outcome: Option<CombatOutcome>,
    time_up: bool,
    win_pressed: bool,
    lose_pressed: bool,
) -> Option<CombatOutcome> {
    if outcome is Some {
        outcome
    } else if time_up {
        Some(CombatOutcome::Win { score: WIN_SCORE })
    } else if lose_pressed {
        Some(CombatOutcome::Lost)
    } else if win_pressed {
        Some(CombatOutcome::Win { score: WIN_SCORE })
    } else {
        None
    }
}

/// Decides the outcome of an encounter for one frame, once its timer has
/// been advanced: `time_up` is whether no time is left, `win_pressed` and
/// `lose_pressed` whether the win and the lose key were pressed. An outcome
/// already reached is final: a death stays a death and a win stays a win
/// while the result waits for the player to return to space.
pub fn update_outcome(
    outcome: Option<CombatOutcome>,
    time_up: bool,
    win_pressed: bool,
    lose_pressed: bool,
) -> (next: Option<CombatOutcome>)
    ensures
        next == spec_update_outcome(outcome, time_up, win_pressed, lose_pressed),
        outcome is Some ==> next == outcome,
        outcome is None && time_up ==> next == Some(CombatOutcome::Win { score: WIN_SCORE }),
        outcome is None && !time_up && lose_pressed ==> next == Some(CombatOutcome::Lost),
        outcome is None && !time_up && !lose_pressed && win_pressed ==> next == Some(
            CombatOutcome::Win { score: WIN_SCORE },
        ),
        outcome is None && !time_up && !lose_pressed && !win_pressed ==> next is None,
{
    if outcome.is_some() {
        return outcome;
    }
    if time_up {
        return Some(CombatOutcome::Win { score: WIN_SCORE });
    }
    let mut next = outcome;
    if win_pressed {
        next = Some(CombatOutcome::Win { score: WIN_SCORE });
    }
    if lose_pressed {
        next = Some(CombatOutcome::Lost);
    }
    next
}

} // verus!
