//! Row letters in text and the zero-based indices they stand for.
use vstd::prelude::*;

use crate::game_constants::{FIRST_LETTER, LAST_LETTER};

verus! {

/// The index a row letter stands for, if it is one of the row letters.
pub open spec fn letter_index(c: char) -> Option<usize> {
    if FIRST_LETTER <= c && c <= LAST_LETTER {
        Some((c as u32 - FIRST_LETTER as u32) as usize)
    } else {
        None
    }
}

/// Which bound a character outside the row letters breaks.
#[derive(Debug, Clone, Copy, PartialEq, Eq, Structural)]
pub enum CoordinateError {
    BeforeFirstLetter,
    AfterLastLetter,
}

/// The index a row letter stands for, or which bound the character breaks.
pub open spec fn letter_lookup(c: char) -> Result<usize, CoordinateError> {
    if (c as u32) < FIRST_LETTER as u32 {
        Err(CoordinateError::BeforeFirstLetter)
    } else if (c as u32) > LAST_LETTER as u32 {
        Err(CoordinateError::AfterLastLetter)
    } else {
        Ok((c as u32 - FIRST_LETTER as u32) as usize)
    }
}

/// The index of a row letter; a character before `FIRST_LETTER` or after
/// `LAST_LETTER` is refused with the bound it breaks.
pub fn letter_to_index(character: char) -> (r: Result<usize, CoordinateError>)
    ensures
        r == letter_lookup(character),
{
    let code = character as u32;
    let first = FIRST_LETTER as u32;
    let last = LAST_LETTER as u32;
    if code < first {
        Err(CoordinateError::BeforeFirstLetter)
    } else if code > last {
        Err(CoordinateError::AfterLastLetter)
    } else {
        Ok((code - first) as usize)
    }
}

pub fn coordinate_to_usize(character: char) -> (r: Option<usize>)
    ensures
        r == letter_index(character),
        r is None <==> letter_lookup(character) is Err,
{
    match letter_to_index(character) {
        Ok(index) => Some(index),
        Err(_) => None,
    }
}

/// The row letter of index `coordinate`.
pub fn usize_to_coordinate(coordinate: usize) -> (r: char)
    requires
        coordinate <= LAST_LETTER as u32 - FIRST_LETTER as u32,
    ensures
        r as u32 == FIRST_LETTER as u32 + coordinate,
        letter_index(r) == Some(coordinate),
{
    (FIRST_LETTER as u8 + coordinate as u8) as char
}

} // verus!
