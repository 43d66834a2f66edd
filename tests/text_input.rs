use battleships::conversions::{coordinate_to_usize, letter_to_index, usize_to_coordinate, CoordinateError};
use battleships::fleet::FleetInventory;
use battleships::field::{CheckedCell, FieldCell, ShipPlacementError};
use battleships::player::Player;
use battleships::protocol::{
    incoming_outcome, incoming_shot, outcome_packet, receive_shot, shot_packet, MAGIC_BYTE_GET_SHOT,
    MAGIC_BYTE_OUTCOME, MAGIC_BYTE_SHOOT, OUTCOME_ALREADY_SHOT, OUTCOME_HIT, OUTCOME_KILL, OUTCOME_MISS,
    OUTCOME_OFF_FIELD,
};
use battleships::ship::{ParseRotationError, ParseShipError, Rotation, Ship};
use battleships::shot::{ParseShotError, Shot};

#[test]
fn ship_text_round_trip() {
    let ship: Ship = "4:B:3:h".parse().unwrap();
    assert_eq!(ship, Ship { length: 4, x: 2, y: 1, rotation: Rotation::Horizontal });
    let shot: Shot = "B:3".parse().unwrap();
    assert_eq!(shot, Shot { x: 2, y: 1 });
}

#[test]
fn ship_text_variants() {
    assert_eq!(
        Ship::parse("1:J:10:v"),
        Ok(Ship { length: 1, x: 9, y: 9, rotation: Rotation::Vertical })
    );
    assert_eq!(
        Ship::parse("+2:A:+1:h:extra"),
        Ok(Ship { length: 2, x: 0, y: 0, rotation: Rotation::Horizontal })
    );
    assert_eq!(Ship::parse("3:C:0:h"), Err(ParseShipError::ZeroColumn));
    assert_eq!(Ship::parse("4:B:0:h"), Err(ParseShipError::ZeroColumn));
    assert_eq!(Ship::parse("4:B:+0:x"), Err(ParseShipError::ZeroColumn));
    assert!("4:B:0:h".parse::<Ship>().is_err());
}

#[test]
fn ship_text_errors() {
    assert!(matches!(Ship::parse("x:B:3:h"), Err(ParseShipError::ParseIntError(_))));
    assert!(matches!(Ship::parse(""), Err(ParseShipError::ParseIntError(_))));
    assert!(matches!(Ship::parse("-1:B:3:h"), Err(ParseShipError::ParseIntError(_))));
    assert_eq!(Ship::parse("4"), Err(ParseShipError::MissingInfo));
    assert!(matches!(Ship::parse("4:BB:3:h"), Err(ParseShipError::ParseCharError(_))));
    assert!(matches!(Ship::parse("4::3:h"), Err(ParseShipError::ParseCharError(_))));
    assert_eq!(Ship::parse("4:K:3:h"), Err(ParseShipError::ConversionToCharError));
    assert_eq!(Ship::parse("4:b:3:h"), Err(ParseShipError::ConversionToCharError));
    assert_eq!(Ship::parse("4:B"), Err(ParseShipError::MissingInfo));
    assert!(matches!(Ship::parse("4:B:three:h"), Err(ParseShipError::ParseIntError(_))));
    assert!(matches!(
        Ship::parse("4:B:99999999999999999999999:h"),
        Err(ParseShipError::ParseIntError(_))
    ));
    assert_eq!(Ship::parse("4:B:3"), Err(ParseShipError::MissingInfo));
    assert_eq!(
        Ship::parse("4:B:3:x"),
        Err(ParseShipError::ParseRotationError(ParseRotationError::InvalidInput))
    );
    assert_eq!(
        Ship::parse("4:B:3:hv"),
        Err(ParseShipError::ParseRotationError(ParseRotationError::InvalidInput))
    );
}

#[test]
fn shot_text_errors() {
    assert!(matches!(Shot::parse("BB:3"), Err(ParseShotError::ParseCharError(_))));
    assert!(matches!(Shot::parse(""), Err(ParseShotError::ParseCharError(_))));
    assert_eq!(Shot::parse("Z:3"), Err(ParseShotError::ConversionError));
    assert_eq!(Shot::parse("B"), Err(ParseShotError::MissingInfo));
    assert!(matches!(Shot::parse("B:x"), Err(ParseShotError::ParseIntError(_))));
    assert!(matches!(Shot::parse("B:"), Err(ParseShotError::ParseIntError(_))));
    assert_eq!(Shot::parse("J:10:7"), Ok(Shot { x: 9, y: 9 }));
    assert_eq!(Shot::parse("B:0"), Err(ParseShotError::ZeroColumn));
    assert!("B:0".parse::<Shot>().is_err());
    assert_eq!(Shot::parse("K:3"), Err(ParseShotError::ConversionError));
}

#[test]
fn rotation_text() {
    assert_eq!(Rotation::parse("h"), Ok(Rotation::Horizontal));
    assert_eq!(Rotation::parse("v"), Ok(Rotation::Vertical));
    assert_eq!(Rotation::parse("H"), Err(ParseRotationError::InvalidInput));
    assert_eq!(Rotation::parse(""), Err(ParseRotationError::InvalidInput));
    assert_eq!("v".parse::<Rotation>(), Ok(Rotation::Vertical));
}

#[test]
fn parse_error_messages() {
    assert_eq!(
        ParseRotationError::InvalidInput.message(),
        "rotation must be one of 'v'/'h'"
    );
    assert_eq!(
        Ship::parse("4").unwrap_err().message(),
        "Some information about the ship is missing!"
    );
    assert_eq!(
        Ship::parse("x:B:3:h").unwrap_err().message(),
        "Can't understand the x coordinate: invalid digit found in string"
    );
    assert_eq!(
        Ship::parse("4:BB:3:h").unwrap_err().message(),
        "Can't understand the y coordinate: too many characters in string"
    );
    assert_eq!(
        Ship::parse("4:Z:3:h").unwrap_err().message(),
        "The y coordinate was wrong: coordinate must be in range A..J"
    );
    assert_eq!(
        Ship::parse("4:B:3:q").unwrap_err().message(),
        "The rotation inputted is wrong: rotation must be one of 'v'/'h'"
    );
    assert_eq!(
        Shot::parse("B").unwrap_err().message(),
        "missing some info about the shot. Maybe you forgot a ':'?"
    );
    assert_eq!(
        Shot::parse("B:").unwrap_err().message(),
        "can't understand the x coordinate: cannot parse integer from empty string"
    );
    assert_eq!(
        Shot::parse(":3").unwrap_err().message(),
        "can't understand the y coordinate: cannot parse char from empty string"
    );
    assert_eq!(
        Ship::parse("4:B:0:h").unwrap_err().message(),
        "The x coordinate was wrong: columns are numbered from 1"
    );
    assert_eq!(
        Shot::parse("B:0").unwrap_err().message(),
        "the x coordinate is invalid: columns are numbered from 1"
    );
    assert_eq!(
        Shot::parse("Q:3").unwrap_err().message(),
        "the y coordinate is invalid: coordinate must be in range: A..J"
    );
}

#[test]
fn row_letters_and_indices() {
    assert_eq!(coordinate_to_usize('A'), Some(0));
    assert_eq!(coordinate_to_usize('B'), Some(1));
    assert_eq!(coordinate_to_usize('J'), Some(9));
    assert_eq!(coordinate_to_usize('K'), None);
    assert_eq!(coordinate_to_usize('@'), None);
    assert_eq!(coordinate_to_usize('a'), None);
    assert_eq!(usize_to_coordinate(0), 'A');
    assert_eq!(usize_to_coordinate(1), 'B');
    assert_eq!(usize_to_coordinate(9), 'J');
    assert_eq!(letter_to_index('A'), Ok(0));
    assert_eq!(letter_to_index('J'), Ok(9));
    assert_eq!(letter_to_index('@'), Err(CoordinateError::BeforeFirstLetter));
    assert_eq!(letter_to_index('1'), Err(CoordinateError::BeforeFirstLetter));
    assert_eq!(letter_to_index('K'), Err(CoordinateError::AfterLastLetter));
    assert_eq!(letter_to_index('b'), Err(CoordinateError::AfterLastLetter));
}

#[test]
fn reference_fleet_counts() {
    let fleet = FleetInventory::reference();
    assert_eq!(fleet.left(1), 4);
    assert_eq!(fleet.left(2), 3);
    assert_eq!(fleet.left(3), 2);
    assert_eq!(fleet.left(4), 1);
    assert_eq!(fleet.left(0), 0);
    assert_eq!(fleet.left(5), 0);
    assert_eq!(fleet.left(usize::MAX), 0);
}

#[test]
fn fleet_check_and_take() {
    let mut fleet = FleetInventory::reference();
    let mut player = Player::new(10);
    let four = Ship { length: 4, x: 0, y: 0, rotation: Rotation::Vertical };
    assert_eq!(fleet.check(&player, &four), Ok(()));
    fleet.take(4);
    player.place_ship(&four);
    assert_eq!(fleet.left(4), 0);
    assert_eq!(fleet.left(3), 2);
    let another = Ship { length: 4, x: 5, y: 5, rotation: Rotation::Horizontal };
    assert_eq!(
        fleet.check(&player, &another),
        Err(ShipPlacementError::NoShipsOfLengthLeft(4))
    );
    let too_long = Ship { length: 5, x: 0, y: 9, rotation: Rotation::Horizontal };
    assert_eq!(
        fleet.check(&player, &too_long),
        Err(ShipPlacementError::NoShipsOfLengthLeft(5))
    );
    // The field's own checks come first.
    let touching = Ship { length: 4, x: 1, y: 1, rotation: Rotation::Horizontal };
    assert_eq!(
        fleet.check(&player, &touching),
        Err(ShipPlacementError::TouchesWithShip(0, 0))
    );
}

#[test]
fn shot_packets() {
    assert_eq!(shot_packet(2, 1), [MAGIC_BYTE_GET_SHOT, 2, 1]);
    assert_eq!(shot_packet(257, 3), [MAGIC_BYTE_GET_SHOT, 1, 3]);
    assert_eq!(incoming_shot(&[MAGIC_BYTE_GET_SHOT, 7, 4]), Some((7, 4)));
    assert_eq!(incoming_shot(&[MAGIC_BYTE_SHOOT, 7, 4]), None);
}

#[test]
fn received_shots_are_resolved() {
    let mut player = Player::new(10);
    player.place_ship(&Ship { length: 1, x: 3, y: 4, rotation: Rotation::Horizontal });
    assert_eq!(receive_shot(&mut player, &[MAGIC_BYTE_SHOOT, 3, 4]), None);
    assert_eq!(player.player_field().at(3, 4), FieldCell::Ship);
    assert_eq!(
        receive_shot(&mut player, &[MAGIC_BYTE_GET_SHOT, 0, 0]),
        Some(Ok(CheckedCell::Miss))
    );
    assert_eq!(
        receive_shot(&mut player, &[MAGIC_BYTE_GET_SHOT, 3, 4]),
        Some(Ok(CheckedCell::Kill))
    );
    assert_eq!(
        receive_shot(&mut player, &[MAGIC_BYTE_GET_SHOT, 10, 4]),
        Some(Err("Shot off the field".to_string()))
    );
    assert!(player.lost());
}

#[test]
fn outcome_packets() {
    assert_eq!(outcome_packet(&Ok(CheckedCell::Miss)), [MAGIC_BYTE_OUTCOME, OUTCOME_MISS]);
    assert_eq!(outcome_packet(&Ok(CheckedCell::Hit)), [MAGIC_BYTE_OUTCOME, OUTCOME_HIT]);
    assert_eq!(outcome_packet(&Ok(CheckedCell::Kill)), [MAGIC_BYTE_OUTCOME, OUTCOME_KILL]);
    assert_eq!(
        outcome_packet(&Err("Already shot in this place!".to_string())),
        [MAGIC_BYTE_OUTCOME, OUTCOME_ALREADY_SHOT]
    );
    assert_eq!(
        outcome_packet(&Err("Shot off the field".to_string())),
        [MAGIC_BYTE_OUTCOME, OUTCOME_OFF_FIELD]
    );
    assert_eq!(incoming_outcome(&[MAGIC_BYTE_OUTCOME, OUTCOME_KILL]), Some(Ok(CheckedCell::Kill)));
    assert_eq!(incoming_outcome(&[MAGIC_BYTE_OUTCOME, OUTCOME_ALREADY_SHOT]), Some(Err(false)));
    assert_eq!(incoming_outcome(&[MAGIC_BYTE_OUTCOME, OUTCOME_OFF_FIELD]), Some(Err(true)));
    assert_eq!(incoming_outcome(&[MAGIC_BYTE_OUTCOME, 9]), None);
    assert_eq!(incoming_outcome(&[MAGIC_BYTE_GET_SHOT, OUTCOME_HIT]), None);
}

#[test]
fn received_shot_reply_round_trip() {
    let mut player = Player::new(5);
    player.place_ship(&Ship { length: 2, x: 1, y: 1, rotation: Rotation::Vertical });
    let first = receive_shot(&mut player, &[MAGIC_BYTE_GET_SHOT, 1, 1]).unwrap();
    assert_eq!(incoming_outcome(&outcome_packet(&first)), Some(Ok(CheckedCell::Hit)));
    let again = receive_shot(&mut player, &[MAGIC_BYTE_GET_SHOT, 1, 1]).unwrap();
    assert_eq!(incoming_outcome(&outcome_packet(&again)), Some(Err(false)));
    let off = receive_shot(&mut player, &[MAGIC_BYTE_GET_SHOT, 7, 1]).unwrap();
    assert_eq!(incoming_outcome(&outcome_packet(&off)), Some(Err(true)));
}
