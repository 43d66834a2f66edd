//! Ships: a length, an anchor cell and an orientation.
use vstd::prelude::*;

use std::char::ParseCharError;
use std::num::ParseIntError;

use crate::conversions::{coordinate_to_usize, letter_index};
use crate::game_constants::{FIRST_LETTER, LAST_LETTER};
use vstd::string::to_string_from_display_ensures;
use crate::grid::in_bounds;
use crate::text::{
    char_text, digits_value, fields, is_usize_text, parse_char, parse_usize, split_fields,
    unsigned_digits,
};

verus! {

#[derive(Debug, Clone, Copy, PartialEq, Eq, Structural)]
pub enum Rotation {
    Horizontal,
    Vertical,
}

/// A straight ship of `length` cells from `(x, y)`, along `x` when
/// horizontal and along `y` when vertical.
#[derive(Debug, Clone, Copy, PartialEq, Eq, Structural)]
pub struct Ship {
    pub length: usize,
    pub x: usize,
    pub y: usize,
    pub rotation: Rotation,
}

impl Ship {
    /// The `i`-th cell of the ship, counted from its anchor.
    pub open spec fn cell(self, i: int) -> (int, int) {
        match self.rotation {
            Rotation::Horizontal => (self.x + i, self.y as int),
            Rotation::Vertical => (self.x as int, self.y + i),
        }
    }

    /// The ship occupies `p`.
    pub open spec fn covers(self, p: (int, int)) -> bool {
        match self.rotation {
            Rotation::Horizontal => p.1 == self.y && self.x <= p.0 < self.x + self.length,
            Rotation::Vertical => p.0 == self.x && self.y <= p.1 < self.y + self.length,
        }
    }

    /// Every cell of the ship lies on a grid of side `n`.
    pub open spec fn fits(self, n: int) -> bool {
        forall|i: int| 0 <= i < self.length ==> in_bounds(n, #[trigger] self.cell(i))
    }
}

/// Why a rotation could not be read.
#[derive(Debug, Clone, Copy, PartialEq, Eq, Structural)]
pub enum ParseRotationError {
    InvalidInput,
}

/// Why a ship could not be read.
#[derive(Debug, PartialEq, Eq)]
pub enum ParseShipError {
    MissingInfo,
    ParseIntError(ParseIntError),
    ParseCharError(ParseCharError),
    ConversionToCharError,
    ParseRotationError(ParseRotationError),
    ZeroColumn,
}

impl ParseRotationError {
    /// The text shown to a player.
    pub open spec fn text(self) -> Seq<char> {
        "rotation must be one of 'v'/'h'"@
    }

    pub fn message(&self) -> (r: String)
        ensures
            r@ == self.text(),
    {
        String::from_str("rotation must be one of 'v'/'h'")
    }
}

impl ParseShipError {
    /// The text shown to a player; an error of `str::parse` is shown as its
    /// own `Display` writes it.
    pub fn message(&self) -> (r: String)
        ensures
            match self {
                ParseShipError::MissingInfo => r@ == "Some information about the ship is missing!"@,
                ParseShipError::ParseIntError(inner) => exists|t: String|
                    to_string_from_display_ensures::<ParseIntError>(inner, t) && r@
                        == "Can't understand the x coordinate: "@ + t@,
                ParseShipError::ParseCharError(inner) => exists|t: String|
                    to_string_from_display_ensures::<ParseCharError>(inner, t) && r@
                        == "Can't understand the y coordinate: "@ + t@,
                ParseShipError::ConversionToCharError => r@
                    == "The y coordinate was wrong: coordinate must be in range "@ + seq![FIRST_LETTER]
                    + ".."@ + seq![LAST_LETTER],
                ParseShipError::ParseRotationError(inner) => r@ == "The rotation inputted is wrong: "@
                    + inner.text(),
                ParseShipError::ZeroColumn => r@ == "The x coordinate was wrong: columns are numbered from 1"@,
            },
    {
        match self {
            ParseShipError::MissingInfo => String::from_str("Some information about the ship is missing!"),
            ParseShipError::ParseIntError(inner) => {
                let t = inner.to_string();
                let mut r = String::from_str("Can't understand the x coordinate: ");
                r.append(t.as_str());
                r
            },
            ParseShipError::ParseCharError(inner) => {
                let t = inner.to_string();
                let mut r = String::from_str("Can't understand the y coordinate: ");
                r.append(t.as_str());
                r
            },
            ParseShipError::ConversionToCharError => {
                let mut r = String::from_str("The y coordinate was wrong: coordinate must be in range ");
                r.append(char_text(FIRST_LETTER).as_str());
                r.append("..");
                r.append(char_text(LAST_LETTER).as_str());
                r
            },
            ParseShipError::ParseRotationError(inner) => {
                let mut r = String::from_str("The rotation inputted is wrong: ");
                r.append(inner.message().as_str());
                r
            },
            ParseShipError::ZeroColumn => String::from_str("The x coordinate was wrong: columns are numbered from 1"),
        }
    }
}

/// The rotation written `h` or `v`.
pub open spec fn rotation_of(t: Seq<char>) -> Result<Rotation, ParseRotationError> {
    if t == seq!['h'] {
        Ok(Rotation::Horizontal)
    } else if t == seq!['v'] {
        Ok(Rotation::Vertical)
    } else {
        Err(ParseRotationError::InvalidInput)
    }
}

/// The one-based column number written in `t`.
pub open spec fn column_number(t: Seq<char>) -> nat {
    digits_value(unsigned_digits(t))
}

/// The zero-based column of a one-based column number other than `0`.
pub open spec fn column_of(t: Seq<char>) -> usize {
    (column_number(t) - 1) as usize
}

/// `r` is what reading a ship from the fields `f` of
/// `length:row:column:rotation` gives. The fields are read in that order and
/// the first that is missing or malformed gives the error; fields after the
/// fourth are ignored.
pub open spec fn ship_text_result(f: Seq<Seq<char>>, r: Result<Ship, ParseShipError>) -> bool {
    if !is_usize_text(f[0]) {
        r matches Err(ParseShipError::ParseIntError(_))
    } else if f.len() < 2 {
        r == Err::<Ship, ParseShipError>(ParseShipError::MissingInfo)
    } else if f[1].len() != 1 {
        r matches Err(ParseShipError::ParseCharError(_))
    } else if letter_index(f[1][0]) is None {
        r == Err::<Ship, ParseShipError>(ParseShipError::ConversionToCharError)
    } else if f.len() < 3 {
        r == Err::<Ship, ParseShipError>(ParseShipError::MissingInfo)
    } else if !is_usize_text(f[2]) {
        r matches Err(ParseShipError::ParseIntError(_))
    } else if column_number(f[2]) == 0 {
        r == Err::<Ship, ParseShipError>(ParseShipError::ZeroColumn)
    } else if f.len() < 4 {
        r == Err::<Ship, ParseShipError>(ParseShipError::MissingInfo)
    } else if rotation_of(f[3]) is Err {
        r == Err::<Ship, ParseShipError>(
            ParseShipError::ParseRotationError(ParseRotationError::InvalidInput),
        )
    } else {
        r == Ok::<Ship, ParseShipError>(
            Ship {
                length: digits_value(unsigned_digits(f[0])) as usize,
                x: column_of(f[2]),
                y: letter_index(f[1][0])->0,
                rotation: rotation_of(f[3])->Ok_0,
            },
        )
    }
}

impl Rotation {
    /// Reads `h` (horizontal) or `v` (vertical).
    pub fn parse(s: &str) -> (r: Result<Rotation, ParseRotationError>)
        ensures
            r == rotation_of(s@),
    {
        if s.unicode_len() != 1 {
            assert(s@ != seq!['h'] && s@ != seq!['v']);
            return Err(ParseRotationError::InvalidInput);
        }
        let c = s.get_char(0);
        if c == 'h' {
            assert(s@ =~= seq!['h']);
            Ok(Rotation::Horizontal)
        } else if c == 'v' {
            assert(s@ =~= seq!['v']);
            Ok(Rotation::Vertical)
        } else {
            assert(s@ != seq!['h'] && s@ != seq!['v']);
            Err(ParseRotationError::InvalidInput)
        }
    }
}

impl std::str::FromStr for Rotation {
    type Err = ParseRotationError;

    fn from_str(s: &str) -> Result<Self, Self::Err> {
        Rotation::parse(s)
    }
}

/// The zero-based column of a one-based column number.
pub(crate) fn to_column(n: usize) -> (r: usize)
    requires
        n > 0,
    ensures
        r == n - 1,
{
    n - 1
}

impl Ship {
    /// Reads a ship written `length:row:column:rotation`, such as `4:B:3:h`:
    /// the row is a letter, the column a one-based number, the rotation `h`
    /// or `v`.
    pub fn parse(s: &str) -> (r: Result<Ship, ParseShipError>)
        ensures
            ship_text_result(fields(s@), r),
    {
        let ship_iter = split_fields(s);
        let ghost f = fields(s@);
        let length = match parse_usize(ship_iter[0]) {
            Ok(value) => value,
            Err(error) => return Err(ParseShipError::ParseIntError(error)),
        };
        if ship_iter.len() < 2 {
            return Err(ParseShipError::MissingInfo);
        }
        let y = match parse_char(ship_iter[1]) {
            Ok(value) => value,
            Err(error) => return Err(ParseShipError::ParseCharError(error)),
        };
        let y = match coordinate_to_usize(y) {
            Some(value) => value,
            None => return Err(ParseShipError::ConversionToCharError),
        };
        if ship_iter.len() < 3 {
            return Err(ParseShipError::MissingInfo);
        }
        let x = match parse_usize(ship_iter[2]) {
            Ok(value) => value,
            Err(error) => return Err(ParseShipError::ParseIntError(error)),
        };
        if x == 0 {
            return Err(ParseShipError::ZeroColumn);
        }
        let x = to_column(x);
        if ship_iter.len() < 4 {
            return Err(ParseShipError::MissingInfo);
        }
        let rotation = match Rotation::parse(ship_iter[3]) {
            Ok(value) => value,
            Err(error) => return Err(ParseShipError::ParseRotationError(error)),
        };
        Ok(Ship { length, x, y, rotation })
    }
}

impl std::str::FromStr for Ship {
    type Err = ParseShipError;

    fn from_str(s: &str) -> Result<Self, Self::Err> {
        Ship::parse(s)
    }
}

} // verus!
