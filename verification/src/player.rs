//! The player's ship drive, credits and cleared dungeons.
use std::collections::HashSet;
use vstd::prelude::*;
use crate::combat::CombatOutcome;

verus! {

broadcast use vstd::std_specs::hash::group_hash_axioms;

/// Cruising speed, in world units per second.
pub const BASE_SPEED: u32 = 300;

/// Speed with the hyperdrive on, in world units per second.
pub const HYPERDRIVE_SPEED: u32 = 1000;

/// The ship's drive: whether the hyperdrive is on, and the speed it gives.
#[derive(Clone, Copy, Debug, PartialEq, Eq, Structural)]
pub struct PlayerShip {
    pub speed: u32,
    pub hyper_drive: bool,
}

/// The speed that goes with a hyperdrive setting.
pub open spec fn spec_speed_for(hyper_drive: bool) -> u32 {
    if hyper_drive {
        HYPERDRIVE_SPEED
    } else {
        BASE_SPEED
    }
}

/// The drive after the hyperdrive is toggled.
pub open spec fn spec_toggled(ship: PlayerShip) -> PlayerShip {
    PlayerShip { speed: spec_speed_for(!ship.hyper_drive), hyper_drive: !ship.hyper_drive }
}

impl PlayerShip {
    /// The speed matches the hyperdrive setting.
    pub open spec fn wf(self) -> bool {
        self.speed == spec_speed_for(self.hyper_drive)
    }

    pub fn new() -> (ship: PlayerShip)
        ensures
            ship == (PlayerShip { speed: BASE_SPEED, hyper_drive: false }),
            ship.wf(),
    {
        PlayerShip { speed: BASE_SPEED, hyper_drive: false }
    }

    pub fn togle_hyperdrive(&mut self)
        ensures
            *final(self) == spec_toggled(*old(self)),
            final(self).wf(),
    {
        if self.hyper_drive {
            self.hyper_drive = false;
            self.speed = BASE_SPEED;
        } else {
            self.hyper_drive = true;
            self.speed = HYPERDRIVE_SPEED;
        }
    }
}

/// Toggling the hyperdrive twice gives back the drive as it was.
pub proof fn lemma_toggle_twice_restores(ship: PlayerShip)
    requires
        ship.wf(),
    ensures
        spec_toggled(spec_toggled(ship)) == ship,
{
}

pub struct Player {
    pub ship: PlayerShip,
    pub credits: u32,
    pub speed_level: u32,
    pub cleared_dungeons: HashSet<u64>,
}

impl Player {
    pub fn new() -> (player: Player)
        ensures
            player.ship == (PlayerShip { speed: BASE_SPEED, hyper_drive: false }),
            player.credits == 0,
            player.speed_level == 0,
            player.cleared_dungeons@ == Set::<u64>::empty(),
    {
        Player { ship: PlayerShip::new(), credits: 0, speed_level: 0, cleared_dungeons: HashSet::new() }
    }

    pub fn clear_dungeon(&mut self, dungeon_id: u64)
        ensures
            final(self).cleared_dungeons@ == old(self).cleared_dungeons@.insert(dungeon_id),
            final(self).ship == old(self).ship,
            final(self).credits == old(self).credits,
            final(self).speed_level == old(self).speed_level,
    {
        self.cleared_dungeons.insert(dungeon_id);
    }

    pub fn is_dungeon_cleared(&self, dungeon_id: &u64) -> (cleared: bool)
        ensures
            cleared == self.cleared_dungeons@.contains(*dungeon_id),
    {
        self.cleared_dungeons.contains(dungeon_id)
    }

    /// Settles a finished encounter in dungeon `dungeon_id`: a win adds its
    /// score to the credits and marks the dungeon cleared; a loss changes
    /// nothing.
    pub fn finish_dungeon(&mut self, dungeon_id: u64, outcome: CombatOutcome)
        requires
            outcome matches CombatOutcome::Win { score } ==> old(self).credits + score <= u32::MAX,
        ensures
            final(self).ship == old(self).ship,
            final(self).speed_level == old(self).speed_level,
            match outcome {
                CombatOutcome::Win { score } => {
                    &&& final(self).credits == old(self).credits + score
                    &&& final(self).cleared_dungeons@ == old(self).cleared_dungeons@.insert(dungeon_id)
                },
                CombatOutcome::Lost => {
                    &&& final(self).credits == old(self).credits
                    &&& final(self).cleared_dungeons@ == old(self).cleared_dungeons@
                },
            },
    {
        match outcome {
            CombatOutcome::Win { score } => {
                self.credits = self.credits + score;
                self.clear_dungeon(dungeon_id);
            },
            CombatOutcome::Lost => {},
        }
    }
}

/// A cleared dungeon reads back as cleared, and clearing one dungeon leaves
/// every other dungeon as it was.
pub proof fn lemma_clear_then_cleared(cleared: Set<u64>, dungeon_id: u64, other: u64)
    ensures
        cleared.insert(dungeon_id).contains(dungeon_id),
        other != dungeon_id ==> (cleared.insert(dungeon_id).contains(other) == cleared.contains(other)),
{
}

} // verus!
