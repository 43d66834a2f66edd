use battleships::field::{CheckedCell, FieldCell, ShipPlacementError};
use battleships::player::{Player, Victory};
use battleships::ship::{Rotation, Ship};

fn ship(length: usize, x: usize, y: usize, rotation: Rotation) -> Ship {
    Ship { length, x, y, rotation }
}

#[test]
fn new_player_has_empty_fields() {
    let player = Player::new(10);
    assert_eq!(player.size(), 10);
    assert!(player.lost());
    assert_eq!(player.player_field().at(9, 9), FieldCell::Empty);
    assert_eq!(player.checked_field().at(0, 0), CheckedCell::Unchecked);
}

#[test]
fn player_placement_delegates_to_the_field() {
    let mut player = Player::new(10);
    let first = ship(2, 0, 0, Rotation::Horizontal);
    assert_eq!(player.can_place(&first), Ok(()));
    player.place_ship(&first);
    assert_eq!(
        player.can_place(&ship(1, 2, 1, Rotation::Vertical)),
        Err(ShipPlacementError::TouchesWithShip(1, 0))
    );
    assert_eq!(player.player_field().at(1, 0), FieldCell::Ship);
}

#[test]
fn every_shot_but_the_last_hits_and_the_last_kills() {
    let mut player = Player::new(10);
    player.place_ship(&ship(3, 4, 5, Rotation::Horizontal));
    assert_eq!(player.take_damage(6, 5), Ok(CheckedCell::Hit));
    assert_eq!(player.take_damage(4, 5), Ok(CheckedCell::Hit));
    assert_eq!(player.take_damage(5, 5), Ok(CheckedCell::Kill));
    for x in 4..7 {
        assert_eq!(player.player_field().at(x, 5), FieldCell::Dead);
    }
    assert!(player.lost());
}

#[test]
fn vertical_ship_sinks_in_reverse_order() {
    let mut player = Player::new(6);
    player.place_ship(&ship(4, 2, 1, Rotation::Vertical));
    player.place_ship(&ship(1, 5, 5, Rotation::Vertical));
    assert_eq!(player.take_damage(2, 4), Ok(CheckedCell::Hit));
    assert_eq!(player.take_damage(2, 3), Ok(CheckedCell::Hit));
    assert_eq!(player.take_damage(2, 2), Ok(CheckedCell::Hit));
    assert_eq!(player.take_damage(2, 1), Ok(CheckedCell::Kill));
    for y in 1..5 {
        assert_eq!(player.player_field().at(2, y), FieldCell::Dead);
    }
    assert_eq!(player.player_field().at(5, 5), FieldCell::Ship);
    assert!(!player.lost());
}

#[test]
fn shot_at_water_misses() {
    let mut player = Player::new(10);
    player.place_ship(&ship(2, 0, 0, Rotation::Vertical));
    assert_eq!(player.take_damage(5, 5), Ok(CheckedCell::Miss));
    assert_eq!(player.player_field().at(5, 5), FieldCell::EnemyMiss);
}

#[test]
fn shooting_a_resolved_cell_again_is_refused() {
    let mut player = Player::new(10);
    player.place_ship(&ship(2, 0, 0, Rotation::Vertical));
    player.place_ship(&ship(1, 5, 5, Rotation::Vertical));
    assert_eq!(player.take_damage(9, 9), Ok(CheckedCell::Miss));
    assert_eq!(
        player.take_damage(9, 9),
        Err("Already shot in this place".to_string())
    );
    assert_eq!(player.player_field().at(9, 9), FieldCell::EnemyMiss);

    assert_eq!(player.take_damage(0, 0), Ok(CheckedCell::Hit));
    assert_eq!(
        player.take_damage(0, 0),
        Err("Already shot in this place!".to_string())
    );
    assert_eq!(player.player_field().at(0, 0), FieldCell::Hit);

    assert_eq!(player.take_damage(5, 5), Ok(CheckedCell::Kill));
    assert_eq!(
        player.take_damage(5, 5),
        Err("Already shot in this place!".to_string())
    );
    assert_eq!(player.player_field().at(5, 5), FieldCell::Dead);
}

#[test]
fn single_cell_ship_lost_after_one_shot() {
    let mut player = Player::new(10);
    player.place_ship(&ship(1, 0, 0, Rotation::Horizontal));
    assert!(!player.lost());
    assert_eq!(player.take_damage(0, 0), Ok(CheckedCell::Kill));
    assert!(player.lost());
}

#[test]
fn shoot_reports_victory_on_the_last_ship() {
    let mut shooter = Player::new(10);
    let mut target = Player::new(10);
    target.place_ship(&ship(1, 0, 0, Rotation::Horizontal));
    assert!(matches!(shooter.shoot(&mut target, 3, 3), Ok(Victory::NotWin)));
    assert_eq!(shooter.checked_field().at(3, 3), CheckedCell::Miss);
    assert!(matches!(shooter.shoot(&mut target, 0, 0), Ok(Victory::Win)));
    assert_eq!(shooter.checked_field().at(0, 0), CheckedCell::Kill);
    assert!(target.lost());
    assert_eq!(shooter.player_field().at(0, 0), FieldCell::Empty);
}

#[test]
fn shoot_marks_the_whole_sunk_ship() {
    let mut shooter = Player::new(8);
    let mut target = Player::new(8);
    target.place_ship(&ship(3, 1, 1, Rotation::Vertical));
    target.place_ship(&ship(2, 5, 5, Rotation::Horizontal));
    assert!(matches!(shooter.shoot(&mut target, 1, 1), Ok(Victory::NotWin)));
    assert!(matches!(shooter.shoot(&mut target, 1, 3), Ok(Victory::NotWin)));
    assert_eq!(shooter.checked_field().at(1, 1), CheckedCell::Hit);
    assert_eq!(shooter.checked_field().at(1, 3), CheckedCell::Hit);
    assert!(matches!(shooter.shoot(&mut target, 1, 2), Ok(Victory::NotWin)));
    assert_eq!(shooter.checked_field().at(1, 1), CheckedCell::Kill);
    assert_eq!(shooter.checked_field().at(1, 2), CheckedCell::Kill);
    assert_eq!(shooter.checked_field().at(1, 3), CheckedCell::Kill);
}

#[test]
fn shoot_at_a_resolved_cell_changes_no_marks() {
    let mut shooter = Player::new(5);
    let mut target = Player::new(5);
    target.place_ship(&ship(1, 4, 4, Rotation::Horizontal));
    assert!(matches!(shooter.shoot(&mut target, 2, 2), Ok(Victory::NotWin)));
    let again = shooter.shoot(&mut target, 2, 2);
    assert!(matches!(again, Err(ref m) if m == "Already shot in this place"));
    assert_eq!(shooter.checked_field().at(2, 2), CheckedCell::Miss);
}

#[test]
fn two_ship_game_keeps_the_long_ship_afloat() {
    let mut player = Player::new(10);
    let long: Ship = "4:A:1:v".parse().unwrap();
    let short: Ship = "3:B:5:h".parse().unwrap();
    assert_eq!(player.can_place(&long), Ok(()));
    player.place_ship(&long);
    assert_eq!(player.can_place(&short), Ok(()));
    player.place_ship(&short);
    assert_eq!(player.take_damage(4, 1), Ok(CheckedCell::Hit));
    assert_eq!(player.take_damage(5, 1), Ok(CheckedCell::Hit));
    assert_eq!(player.take_damage(6, 1), Ok(CheckedCell::Kill));
    assert!(!player.lost());
    for y in 0..4 {
        assert_eq!(player.player_field().at(0, y), FieldCell::Ship);
    }
}
