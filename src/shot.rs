//! Shots: the cell a player fires at.
use vstd::prelude::*;

use std::char::ParseCharError;
use std::num::ParseIntError;

use crate::conversions::{coordinate_to_usize, letter_index};
use crate::game_constants::{FIRST_LETTER, LAST_LETTER};
use vstd::string::to_string_from_display_ensures;
use crate::ship::{column_number, column_of, to_column};
use crate::text::{char_text, fields, is_usize_text, parse_char, parse_usize, split_fields};

verus! {

#[derive(Debug, Clone, Copy, PartialEq, Eq, Structural)]
pub struct Shot {
    pub x: usize,
    pub y: usize,
}

/// Why a shot could not be read.
#[derive(Debug, PartialEq, Eq)]
pub enum ParseShotError {
    MissingInfo,
    ParseIntError(ParseIntError),
    ParseCharError(ParseCharError),
    ConversionError,
    ZeroColumn,
}

impl ParseShotError {
    /// The text shown to a player; an error of `str::parse` is shown as its
    /// own `Display` writes it.
    pub fn message(&self) -> (r: String)
        ensures
            match self {
                ParseShotError::MissingInfo => r@ == "missing some info about the shot. Maybe you forgot a ':'?"@,
                ParseShotError::ParseIntError(inner) => exists|t: String|
                    to_string_from_display_ensures::<ParseIntError>(inner, t) && r@
                        == "can't understand the x coordinate: "@ + t@,
                ParseShotError::ParseCharError(inner) => exists|t: String|
                    to_string_from_display_ensures::<ParseCharError>(inner, t) && r@
                        == "can't understand the y coordinate: "@ + t@,
                ParseShotError::ConversionError => r@
                    == "the y coordinate is invalid: coordinate must be in range: "@ + seq![FIRST_LETTER]
                    + ".."@ + seq![LAST_LETTER],
                ParseShotError::ZeroColumn => r@ == "the x coordinate is invalid: columns are numbered from 1"@,
            },
    {
        match self {
            ParseShotError::MissingInfo => String::from_str("missing some info about the shot. Maybe you forgot a ':'?"),
            ParseShotError::ParseIntError(inner) => {
                let t = inner.to_string();
                let mut r = String::from_str("can't understand the x coordinate: ");
                r.append(t.as_str());
                r
            },
            ParseShotError::ParseCharError(inner) => {
                let t = inner.to_string();
                let mut r = String::from_str("can't understand the y coordinate: ");
                r.append(t.as_str());
                r
            },
            ParseShotError::ConversionError => {
                let mut r = String::from_str("the y coordinate is invalid: coordinate must be in range: ");
                r.append(char_text(FIRST_LETTER).as_str());
                r.append("..");
                r.append(char_text(LAST_LETTER).as_str());
                r
            },
            ParseShotError::ZeroColumn => String::from_str("the x coordinate is invalid: columns are numbered from 1"),
        }
    }
}

/// `r` is what reading a shot from the fields `f` of `row:column` gives.
/// The fields are read in that order and the first that is missing or
/// malformed gives the error; fields after the second are ignored.
pub open spec fn shot_text_result(f: Seq<Seq<char>>, r: Result<Shot, ParseShotError>) -> bool {
    if f[0].len() != 1 {
        r matches Err(ParseShotError::ParseCharError(_))
    } else if letter_index(f[0][0]) is None {
        r == Err::<Shot, ParseShotError>(ParseShotError::ConversionError)
    } else if f.len() < 2 {
        r == Err::<Shot, ParseShotError>(ParseShotError::MissingInfo)
    } else if !is_usize_text(f[1]) {
        r matches Err(ParseShotError::ParseIntError(_))
    } else if column_number(f[1]) == 0 {
        r == Err::<Shot, ParseShotError>(ParseShotError::ZeroColumn)
    } else {
        r == Ok::<Shot, ParseShotError>(Shot { x: column_of(f[1]), y: letter_index(f[0][0])->0 })
    }
}

impl Shot {
    /// Reads a shot written `row:column`, such as `B:3`: the row is a
    /// letter, the column a one-based number.
    pub fn parse(s: &str) -> (r: Result<Shot, ParseShotError>)
        ensures
            shot_text_result(fields(s@), r),
    {
        let data = split_fields(s);
        let y = match parse_char(data[0]) {
            Ok(value) => value,
            Err(error) => return Err(ParseShotError::ParseCharError(error)),
        };
        let y = match coordinate_to_usize(y) {
            Some(value) => value,
            None => return Err(ParseShotError::ConversionError),
        };
        if data.len() < 2 {
            return Err(ParseShotError::MissingInfo);
        }
        let x = match parse_usize(data[1]) {
            Ok(value) => value,
            Err(error) => return Err(ParseShotError::ParseIntError(error)),
        };
        if x == 0 {
            return Err(ParseShotError::ZeroColumn);
        }
        let x = to_column(x);
        Ok(Shot { x, y })
    }
}

impl std::str::FromStr for Shot {
    type Err = ParseShotError;

    fn from_str(s: &str) -> Result<Self, Self::Err> {
        Shot::parse(s)
    }
}

} // verus!
