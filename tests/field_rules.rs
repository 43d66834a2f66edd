use battleships::field::{CheckField, CheckedCell, FieldCell, PlayerField, ShipPlacementError};
use battleships::ship::{Rotation, Ship};

fn ship(length: usize, x: usize, y: usize, rotation: Rotation) -> Ship {
    Ship { length, x, y, rotation }
}

#[test]
fn new_player_field_is_empty() {
    let field = PlayerField::new(4);
    assert_eq!(field.size(), 4);
    for x in 0..4 {
        for y in 0..4 {
            assert_eq!(field.at(x, y), FieldCell::Empty);
        }
    }
}

#[test]
fn new_check_field_is_unchecked() {
    let field = CheckField::new(3);
    assert_eq!(field.size(), 3);
    for x in 0..3 {
        for y in 0..3 {
            assert_eq!(field.at(x, y), CheckedCell::Unchecked);
        }
    }
}

#[test]
fn placed_ship_cells_hold_a_ship() {
    let mut field = PlayerField::new(10);
    let horizontal = ship(3, 1, 1, Rotation::Horizontal);
    assert_eq!(field.can_place(&horizontal), Ok(()));
    field.place_ship(&horizontal);
    assert_eq!(field.at(1, 1), FieldCell::Ship);
    assert_eq!(field.at(2, 1), FieldCell::Ship);
    assert_eq!(field.at(3, 1), FieldCell::Ship);
    assert_eq!(field.at(4, 1), FieldCell::Empty);
    assert_eq!(field.at(1, 2), FieldCell::Empty);

    let vertical = ship(2, 7, 5, Rotation::Vertical);
    assert_eq!(field.can_place(&vertical), Ok(()));
    field.place_ship(&vertical);
    assert_eq!(field.at(7, 5), FieldCell::Ship);
    assert_eq!(field.at(7, 6), FieldCell::Ship);
    assert_eq!(field.at(7, 7), FieldCell::Empty);
    assert!(field.is_ship_on(7, 6));
    assert!(!field.is_ship_on(6, 6));
}

#[test]
fn ship_past_right_edge_is_out_of_bounds_x() {
    let field = PlayerField::new(10);
    assert_eq!(
        field.can_place(&ship(3, 8, 0, Rotation::Horizontal)),
        Err(ShipPlacementError::OutOfBoundsX)
    );
    assert_eq!(
        field.can_place(&ship(1, 10, 0, Rotation::Vertical)),
        Err(ShipPlacementError::OutOfBoundsX)
    );
}

#[test]
fn ship_past_bottom_edge_is_out_of_bounds_y() {
    let field = PlayerField::new(10);
    assert_eq!(
        field.can_place(&ship(2, 0, 9, Rotation::Vertical)),
        Err(ShipPlacementError::OutOfBoundsY)
    );
    assert_eq!(
        field.can_place(&ship(4, 3, 12, Rotation::Horizontal)),
        Err(ShipPlacementError::OutOfBoundsY)
    );
}

#[test]
fn ship_touching_diagonally_is_refused() {
    let mut field = PlayerField::new(10);
    field.place_ship(&ship(1, 2, 2, Rotation::Horizontal));
    assert_eq!(
        field.can_place(&ship(1, 3, 3, Rotation::Horizontal)),
        Err(ShipPlacementError::TouchesWithShip(2, 2))
    );
}

#[test]
fn ship_touching_side_by_side_is_refused() {
    let mut field = PlayerField::new(10);
    field.place_ship(&ship(3, 0, 0, Rotation::Horizontal));
    assert_eq!(
        field.can_place(&ship(2, 3, 0, Rotation::Vertical)),
        Err(ShipPlacementError::TouchesWithShip(2, 0))
    );
    assert_eq!(
        field.can_place(&ship(2, 5, 1, Rotation::Horizontal)),
        Ok(())
    );
}

#[test]
fn overlapping_ship_is_refused() {
    let mut field = PlayerField::new(10);
    field.place_ship(&ship(3, 4, 4, Rotation::Vertical));
    assert!(matches!(
        field.can_place(&ship(3, 3, 5, Rotation::Horizontal)),
        Err(ShipPlacementError::TouchesWithShip(4, _))
    ));
}

#[test]
fn first_touching_cell_is_reported_in_scan_order() {
    let mut field = PlayerField::new(10);
    field.place_ship(&ship(1, 6, 4, Rotation::Horizontal));
    field.place_ship(&ship(1, 4, 6, Rotation::Horizontal));
    // Around (5, 5) the row above is scanned before the row below.
    assert_eq!(
        field.can_place(&ship(1, 5, 5, Rotation::Horizontal)),
        Err(ShipPlacementError::TouchesWithShip(6, 4))
    );
}

#[test]
fn out_of_bounds_comes_before_touching_on_later_cells() {
    let mut field = PlayerField::new(10);
    field.place_ship(&ship(1, 0, 0, Rotation::Horizontal));
    // The first cell touches, so the error names it before the edge is reached.
    assert_eq!(
        field.can_place(&ship(12, 1, 1, Rotation::Horizontal)),
        Err(ShipPlacementError::TouchesWithShip(0, 0))
    );
    // A ship far away runs off the edge first.
    assert_eq!(
        field.can_place(&ship(6, 5, 8, Rotation::Horizontal)),
        Err(ShipPlacementError::OutOfBoundsX)
    );
}

#[test]
fn ship_of_length_zero_is_always_accepted() {
    let field = PlayerField::new(2);
    assert_eq!(field.can_place(&ship(0, 50, 50, Rotation::Horizontal)), Ok(()));
}

#[test]
fn ship_on_edges_of_a_small_field() {
    let mut field = PlayerField::new(3);
    field.place_ship(&ship(3, 0, 0, Rotation::Vertical));
    assert_eq!(field.can_place(&ship(3, 2, 0, Rotation::Vertical)), Ok(()));
    assert_eq!(
        field.can_place(&ship(3, 1, 0, Rotation::Vertical)),
        Err(ShipPlacementError::TouchesWithShip(0, 0))
    );
}

#[test]
fn survival_follows_the_connected_ship() {
    let mut field = PlayerField::new(10);
    field.place_ship(&ship(3, 2, 2, Rotation::Horizontal));
    assert!(field.will_ship_survive_after_shot(2, 2));
    assert!(!field.will_ship_die_after_shot(2, 2));
    field.mark_hit(2, 2);
    field.mark_hit(4, 2);
    assert!(!field.will_ship_survive_after_shot(3, 2));
    assert!(field.will_ship_die_after_shot(3, 2));
}

#[test]
fn lone_cell_dies_after_one_shot() {
    let mut field = PlayerField::new(5);
    field.place_ship(&ship(1, 4, 4, Rotation::Vertical));
    assert!(!field.will_ship_survive_after_shot(4, 4));
}

#[test]
fn survival_sees_bent_ships_through_hits() {
    let mut field = PlayerField::new(5);
    field.set(1, 1, FieldCell::Ship);
    field.set(1, 2, FieldCell::Hit);
    field.set(2, 2, FieldCell::Hit);
    field.set(2, 3, FieldCell::Ship);
    // (2, 3) is reached through the two hits, turning a corner.
    assert!(field.will_ship_survive_after_shot(1, 1));
    field.set(2, 3, FieldCell::Dead);
    assert!(!field.will_ship_survive_after_shot(1, 1));
}

#[test]
fn mark_dead_sinks_the_connected_cells_only() {
    let mut field = PlayerField::new(6);
    field.place_ship(&ship(3, 0, 0, Rotation::Horizontal));
    field.place_ship(&ship(2, 4, 3, Rotation::Vertical));
    field.mark_hit(1, 0);
    field.mark_dead(0, 0);
    assert_eq!(field.at(0, 0), FieldCell::Dead);
    assert_eq!(field.at(1, 0), FieldCell::Dead);
    assert_eq!(field.at(2, 0), FieldCell::Dead);
    assert_eq!(field.at(4, 3), FieldCell::Ship);
    assert_eq!(field.at(4, 4), FieldCell::Ship);
    assert_eq!(field.at(3, 0), FieldCell::Empty);
}

#[test]
fn mark_dead_on_water_changes_nothing() {
    let mut field = PlayerField::new(4);
    field.place_ship(&ship(2, 0, 0, Rotation::Horizontal));
    field.mark_dead(3, 3);
    assert_eq!(field.at(0, 0), FieldCell::Ship);
    assert_eq!(field.at(1, 0), FieldCell::Ship);
    assert_eq!(field.at(3, 3), FieldCell::Empty);
}

#[test]
fn set_and_mark_change_one_cell() {
    let mut field = PlayerField::new(3);
    field.set(1, 2, FieldCell::Ship);
    assert_eq!(field.at(1, 2), FieldCell::Ship);
    field.mark_hit(1, 2);
    assert_eq!(field.at(1, 2), FieldCell::Hit);
    field.mark_enemy_miss(0, 0);
    assert_eq!(field.at(0, 0), FieldCell::EnemyMiss);
    assert_eq!(field.at(2, 1), FieldCell::Empty);
}

#[test]
fn check_field_records_plain_marks() {
    let mut marks = CheckField::new(4);
    marks.mark(1, 2, CheckedCell::Miss);
    marks.mark(3, 0, CheckedCell::Hit);
    assert_eq!(marks.at(1, 2), CheckedCell::Miss);
    assert_eq!(marks.at(3, 0), CheckedCell::Hit);
    assert_eq!(marks.at(0, 0), CheckedCell::Unchecked);
}

#[test]
fn check_field_kill_spreads_over_connected_hits() {
    let mut marks = CheckField::new(5);
    marks.mark(0, 1, CheckedCell::Hit);
    marks.mark(0, 2, CheckedCell::Hit);
    marks.mark(2, 2, CheckedCell::Hit);
    marks.mark(1, 1, CheckedCell::Miss);
    marks.mark(0, 3, CheckedCell::Kill);
    assert_eq!(marks.at(0, 3), CheckedCell::Kill);
    assert_eq!(marks.at(0, 2), CheckedCell::Kill);
    assert_eq!(marks.at(0, 1), CheckedCell::Kill);
    // Not connected to the kill: stays a hit.
    assert_eq!(marks.at(2, 2), CheckedCell::Hit);
    assert_eq!(marks.at(1, 1), CheckedCell::Miss);
}

#[test]
fn check_field_kill_alone() {
    let mut marks = CheckField::new(3);
    marks.mark(1, 1, CheckedCell::Kill);
    assert_eq!(marks.at(1, 1), CheckedCell::Kill);
    assert_eq!(marks.at(0, 1), CheckedCell::Unchecked);
}

#[test]
fn cells_are_drawn_with_their_symbols() {
    assert_eq!(FieldCell::Empty.symbol(), "[ ]");
    assert_eq!(FieldCell::Ship.symbol(), "[#]");
    assert_eq!(FieldCell::EnemyMiss.symbol(), "[*]");
    assert_eq!(FieldCell::Hit.symbol(), "[!]");
    assert_eq!(FieldCell::Dead.symbol(), "[X]");
    assert_eq!(CheckedCell::Unchecked.symbol(), "[ ]");
    assert_eq!(CheckedCell::Miss.symbol(), "[*]");
    assert_eq!(CheckedCell::Hit.symbol(), "[!]");
    assert_eq!(CheckedCell::Kill.symbol(), "[X]");
}

#[test]
fn placement_error_messages() {
    assert_eq!(
        ShipPlacementError::OutOfBoundsX.message(),
        "x was out of bounds! Should be in range 0..10"
    );
    assert_eq!(
        ShipPlacementError::OutOfBoundsY.message(),
        "y was out of bounds! Should be in range A..J"
    );
    assert_eq!(
        ShipPlacementError::NoShipsOfLengthLeft(4).message(),
        "no ships of length 4 left"
    );
    assert_eq!(
        ShipPlacementError::TouchesWithShip(2, 1).message(),
        "collision with another ship at B3"
    );
    assert_eq!(
        ShipPlacementError::TouchesWithShip(11, 12).message(),
        "collision with another ship at 1312"
    );
}

#[test]
fn one_cell_field() {
    let mut field = PlayerField::new(1);
    let only = ship(1, 0, 0, Rotation::Horizontal);
    assert_eq!(field.can_place(&only), Ok(()));
    field.place_ship(&only);
    assert_eq!(field.at(0, 0), FieldCell::Ship);
    assert_eq!(
        field.can_place(&ship(2, 0, 0, Rotation::Vertical)),
        Err(ShipPlacementError::TouchesWithShip(0, 0))
    );
    assert!(!field.will_ship_survive_after_shot(0, 0));
}

#[test]
fn ship_starting_off_the_grid_reports_bounds_before_neighbours() {
    let mut field = PlayerField::new(10);
    field.place_ship(&ship(1, 9, 5, Rotation::Horizontal));
    assert_eq!(
        field.can_place(&ship(1, 10, 5, Rotation::Horizontal)),
        Err(ShipPlacementError::OutOfBoundsX)
    );
}
