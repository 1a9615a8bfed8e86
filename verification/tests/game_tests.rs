use space_explorer::combat::CombatOutcome;
use space_explorer::game::{step_game, GameState};
use space_explorer::player::Player;

#[test]
fn exploring_stays_without_enter() {
    let mut p = Player::new();
    assert_eq!(step_game(GameState::Exploring, &mut p, None, None, true), GameState::Exploring);
}

#[test]
fn entering_dungeon_starts_combat() {
    let mut p = Player::new();
    let s = step_game(GameState::Exploring, &mut p, Some(99), None, false);
    assert_eq!(s, GameState::InCombat { dungeon_id: 99 });
    assert_eq!(p.credits, 0);
}

#[test]
fn combat_waits_for_outcome_and_return() {
    let mut p = Player::new();
    let s = GameState::InCombat { dungeon_id: 5 };
    assert_eq!(step_game(s, &mut p, None, None, true), s);
    assert_eq!(step_game(s, &mut p, None, Some(CombatOutcome::Lost), false), s);
}

#[test]
fn returning_after_win_pays() {
    let mut p = Player::new();
    let s = GameState::InCombat { dungeon_id: 5 };
    let n = step_game(s, &mut p, None, Some(CombatOutcome::Win { score: 20 }), true);
    assert_eq!(n, GameState::Exploring);
    assert_eq!(p.credits, 20);
    assert!(p.is_dungeon_cleared(&5));
}

#[test]
fn returning_after_loss_pays_nothing() {
    let mut p = Player::new();
    let s = GameState::InCombat { dungeon_id: 5 };
    let n = step_game(s, &mut p, Some(3), Some(CombatOutcome::Lost), true);
    assert_eq!(n, GameState::Exploring);
    assert_eq!(p.credits, 0);
    assert!(!p.is_dungeon_cleared(&5));
}
