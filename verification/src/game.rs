//! The game's two modes, exploring space and fighting in a dungeon, and the
//! moves between them.
use vstd::prelude::*;
use crate::combat::CombatOutcome;
use crate::player::Player;

verus! {

#[derive(Clone, Copy, Debug, PartialEq, Eq, Structural)]
pub enum GameState {
    Exploring,
    InCombat { dungeon_id: u64 },
}

/// Moves the game on by one frame. While exploring, `enter` is the id of the
/// dungeon in range when the enter key was pressed, and entering it starts
/// an encounter there. In an encounter, once it has an `outcome` and the
/// return key is pressed, the outcome is settled on the player (a win pays
/// its score and clears the dungeon) and the game returns to space.
pub fn step_game(
    state: GameState,
    player: &mut Player,
    enter: Option<u64>,
    outcome: Option<CombatOutcome>,
    return_pressed: bool,
) -> (next: GameState)
    requires
        (state is InCombat && return_pressed) ==> (outcome matches Some(CombatOutcome::Win { score })
            ==> old(player).credits + score <= u32::MAX),
    ensures
        match state {
            GameState::Exploring => {
                &&& *final(player) == *old(player)
                &&& next == match enter {
                    Some(id) => GameState::InCombat { dungeon_id: id },
                    None => GameState::Exploring,
                }
            },
            GameState::InCombat { dungeon_id } => match outcome {
                Some(o) if return_pressed => {
                    &&& next == GameState::Exploring
                    &&& final(player).ship == old(player).ship
                    &&& final(player).speed_level == old(player).speed_level
                    &&& match o {
                        CombatOutcome::Win { score } => {
                            &&& final(player).credits == old(player).credits + score
                            &&& final(player).cleared_dungeons@ == old(player).cleared_dungeons@.insert(dungeon_id)
                        },
                        CombatOutcome::Lost => {
                            &&& final(player).credits == old(player).credits
                            &&& final(player).cleared_dungeons@ == old(player).cleared_dungeons@
                        },
                    }
                },
                _ => {
                    &&& *final(player) == *old(player)
                    &&& next == state
                },
            },
        },
{
    match state {
        GameState::Exploring => match enter {
            Some(id) => GameState::InCombat { dungeon_id: id },
            None => GameState::Exploring,
        },
        GameState::InCombat { dungeon_id } => match outcome {
            Some(o) => {
                if return_pressed {
                    player.finish_dungeon(dungeon_id, o);
                    GameState::Exploring
                } else {
                    state
                }
            },
            None => state,
        },
    }
}

} // verus!
