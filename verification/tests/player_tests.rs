use space_explorer::combat::{update_outcome, CombatOutcome, WIN_SCORE};
use space_explorer::player::{Player, PlayerShip, BASE_SPEED, HYPERDRIVE_SPEED};

#[test]
fn new_ship_cruises() {
    let ship = PlayerShip::new();
    assert_eq!(ship.speed, 300);
    assert!(!ship.hyper_drive);
}

#[test]
fn toggle_hyperdrive_on_and_off() {
    let mut ship = PlayerShip::new();
    ship.togle_hyperdrive();
    assert!(ship.hyper_drive);
    assert_eq!(ship.speed, HYPERDRIVE_SPEED);
    assert_eq!(ship.speed, 1000);
    ship.togle_hyperdrive();
    assert_eq!(ship, PlayerShip::new());
    assert_eq!(ship.speed, BASE_SPEED);
}

#[test]
fn toggle_resets_mismatched_speed() {
    let mut ship = PlayerShip { speed: 5, hyper_drive: true };
    ship.togle_hyperdrive();
    assert_eq!(ship, PlayerShip { speed: 300, hyper_drive: false });
}

#[test]
fn new_player_has_nothing() {
    let p = Player::new();
    assert_eq!(p.credits, 0);
    assert_eq!(p.speed_level, 0);
    assert!(p.cleared_dungeons.is_empty());
    assert_eq!(p.ship, PlayerShip::new());
}

#[test]
fn clear_dungeon_reads_back() {
    let mut p = Player::new();
    assert!(!p.is_dungeon_cleared(&42));
    p.clear_dungeon(42);
    assert!(p.is_dungeon_cleared(&42));
    assert!(!p.is_dungeon_cleared(&43));
    p.clear_dungeon(42);
    assert_eq!(p.cleared_dungeons.len(), 1);
}

#[test]
fn finish_dungeon_win_pays_and_clears() {
    let mut p = Player::new();
    p.finish_dungeon(7, CombatOutcome::Win { score: 20 });
    assert_eq!(p.credits, 20);
    assert!(p.is_dungeon_cleared(&7));
    p.finish_dungeon(8, CombatOutcome::Win { score: 5 });
    assert_eq!(p.credits, 25);
}

#[test]
fn finish_dungeon_loss_changes_nothing() {
    let mut p = Player::new();
    p.finish_dungeon(7, CombatOutcome::Lost);
    assert_eq!(p.credits, 0);
    assert!(!p.is_dungeon_cleared(&7));
}

#[test]
fn outcome_time_up_wins() {
    assert_eq!(update_outcome(None, true, false, true), Some(CombatOutcome::Win { score: WIN_SCORE }));
}

#[test]
fn death_stands() {
    let lost = Some(CombatOutcome::Lost);
    assert_eq!(update_outcome(lost, true, false, false), lost);
    assert_eq!(update_outcome(lost, false, true, false), lost);
    assert_eq!(update_outcome(lost, true, true, true), lost);
}

#[test]
fn win_stands() {
    let won = Some(CombatOutcome::Win { score: WIN_SCORE });
    assert_eq!(update_outcome(won, false, false, true), won);
    assert_eq!(update_outcome(won, true, false, true), won);
}

#[test]
fn outcome_keys() {
    assert_eq!(update_outcome(None, false, true, false), Some(CombatOutcome::Win { score: 20 }));
    assert_eq!(update_outcome(None, false, false, true), Some(CombatOutcome::Lost));
    assert_eq!(update_outcome(None, false, true, true), Some(CombatOutcome::Lost));
}

#[test]
fn outcome_stands_without_input() {
    assert_eq!(update_outcome(None, false, false, false), None);
    assert_eq!(update_outcome(Some(CombatOutcome::Lost), false, false, false), Some(CombatOutcome::Lost));
}
