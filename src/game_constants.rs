//! The settings of the reference game.
use vstd::prelude::*;

verus! {

/// Side of each player's fields.
pub const FIELD_SIZE: usize = 10;

/// Ships each player places.
pub const SHIP_COUNT: u8 = 1;

/// Letter of the first row in text.
pub const FIRST_LETTER: char = 'A';

/// Letter of the last row in text: `FIELD_SIZE - 1` letters after `FIRST_LETTER`.
pub const LAST_LETTER: char = 'J';

/// The row letters, from `FIRST_LETTER` to `LAST_LETTER`, are exactly
/// `FIELD_SIZE` consecutive letters: one per row.
pub proof fn lemma_one_letter_per_row()
    ensures
        LAST_LETTER as u32 == FIRST_LETTER as u32 + FIELD_SIZE - 1,
{
}

} // verus!
