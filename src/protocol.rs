//! The packets two networked players exchange: an opcode byte, then for a
//! shot its column and row as single bytes.
use vstd::prelude::*;

use crate::field::CheckedCell;
use crate::player::{after_shot, outcome, Player};

verus! {

/// "I am entering the placement phase."
pub const MAGIC_BYTE_PLACE: u8 = 1;

/// "I am ready to exchange shots."
pub const MAGIC_BYTE_SHOOT: u8 = 2;

/// "Here is my shot": followed by the column and the row.
pub const MAGIC_BYTE_GET_SHOT: u8 = 3;

/// "Here is what your shot did": followed by one of the outcome codes.
pub const MAGIC_BYTE_OUTCOME: u8 = 4;

/// The shot fell in the water.
pub const OUTCOME_MISS: u8 = 1;

/// The shot struck a ship that stays afloat.
pub const OUTCOME_HIT: u8 = 2;

/// The shot sank a ship.
pub const OUTCOME_KILL: u8 = 3;

/// The cell was already shot.
pub const OUTCOME_ALREADY_SHOT: u8 = 4;

/// The shot was off the field.
pub const OUTCOME_OFF_FIELD: u8 = 5;

/// The message `receive_shot` gives a shot off the field.
pub open spec fn off_field_message() -> Seq<char> {
    "Shot off the field"@
}

/// The outcome code of the result of a shot; `0` for `Unchecked`, which no
/// shot returns.
pub open spec fn outcome_code(r: Result<CheckedCell, String>) -> u8 {
    match r {
        Ok(CheckedCell::Miss) => OUTCOME_MISS,
        Ok(CheckedCell::Hit) => OUTCOME_HIT,
        Ok(CheckedCell::Kill) => OUTCOME_KILL,
        Ok(CheckedCell::Unchecked) => 0,
        Err(message) => if message@ == off_field_message() {
            OUTCOME_OFF_FIELD
        } else {
            OUTCOME_ALREADY_SHOT
        },
    }
}

/// What a reply packet reports: the mark the shot earned, or, for a refused
/// shot, whether it was off the field.
pub open spec fn packet_outcome(packet: Seq<u8>) -> Option<Result<CheckedCell, bool>> {
    if packet[0] != MAGIC_BYTE_OUTCOME {
        None
    } else if packet[1] == OUTCOME_MISS {
        Some(Ok(CheckedCell::Miss))
    } else if packet[1] == OUTCOME_HIT {
        Some(Ok(CheckedCell::Hit))
    } else if packet[1] == OUTCOME_KILL {
        Some(Ok(CheckedCell::Kill))
    } else if packet[1] == OUTCOME_ALREADY_SHOT {
        Some(Err(false))
    } else if packet[1] == OUTCOME_OFF_FIELD {
        Some(Err(true))
    } else {
        None
    }
}

/// The reply to a shot: its outcome, sent back to the shooter.
pub fn outcome_packet(result: &Result<CheckedCell, String>) -> (r: [u8; 2])
    ensures
        r@ == seq![MAGIC_BYTE_OUTCOME, outcome_code(*result)],
{
    let code = match result {
        Ok(CheckedCell::Miss) => OUTCOME_MISS,
        Ok(CheckedCell::Hit) => OUTCOME_HIT,
        Ok(CheckedCell::Kill) => OUTCOME_KILL,
        Ok(CheckedCell::Unchecked) => 0,
        Err(message) => {
            let off_field = String::from_str("Shot off the field");
            if *message == off_field {
                OUTCOME_OFF_FIELD
            } else {
                OUTCOME_ALREADY_SHOT
            }
        },
    };
    let r = [MAGIC_BYTE_OUTCOME, code];
    assert(r@ =~= seq![MAGIC_BYTE_OUTCOME, outcome_code(*result)]);
    r
}

/// What a reply packet reports, if it is a reply packet with a known code.
pub fn incoming_outcome(packet: &[u8; 2]) -> (r: Option<Result<CheckedCell, bool>>)
    ensures
        r == packet_outcome(packet@),
{
    if packet[0] != MAGIC_BYTE_OUTCOME {
        None
    } else if packet[1] == OUTCOME_MISS {
        Some(Ok(CheckedCell::Miss))
    } else if packet[1] == OUTCOME_HIT {
        Some(Ok(CheckedCell::Hit))
    } else if packet[1] == OUTCOME_KILL {
        Some(Ok(CheckedCell::Kill))
    } else if packet[1] == OUTCOME_ALREADY_SHOT {
        Some(Err(false))
    } else if packet[1] == OUTCOME_OFF_FIELD {
        Some(Err(true))
    } else {
        None
    }
}

/// The shooter reads back from the reply what the shot did: the mark it
/// earned, or that it was refused and whether for being off the field.
pub proof fn lemma_outcome_round_trip(result: Result<CheckedCell, String>)
    requires
        result != Ok::<CheckedCell, String>(CheckedCell::Unchecked),
    ensures
        packet_outcome(seq![MAGIC_BYTE_OUTCOME, outcome_code(result)]) == match result {
            Ok(c) => Some(Ok::<CheckedCell, bool>(c)),
            Err(message) => Some(Err::<CheckedCell, bool>(message@ == off_field_message())),
        },
{
}

/// The packet of a shot at `(x, y)`; each coordinate is sent as its low
/// byte.
pub fn shot_packet(x: usize, y: usize) -> (r: [u8; 3])
    ensures
        r@ == seq![MAGIC_BYTE_GET_SHOT, (x % 256) as u8, (y % 256) as u8],
{
    let r = [MAGIC_BYTE_GET_SHOT, (x % 256) as u8, (y % 256) as u8];
    assert(r@ =~= seq![MAGIC_BYTE_GET_SHOT, (x % 256) as u8, (y % 256) as u8]);
    r
}

/// The shot a packet carries, if it is a shot packet.
pub open spec fn packet_shot(packet: Seq<u8>) -> Option<(usize, usize)> {
    if packet[0] == MAGIC_BYTE_GET_SHOT {
        Some((packet[1] as usize, packet[2] as usize))
    } else {
        None
    }
}

/// The shot a packet carries, if it is a shot packet.
pub fn incoming_shot(packet: &[u8; 3]) -> (r: Option<(usize, usize)>)
    ensures
        r == packet_shot(packet@),
{
    if packet[0] == MAGIC_BYTE_GET_SHOT {
        Some((packet[1] as usize, packet[2] as usize))
    } else {
        None
    }
}

/// Handles a packet received while waiting for the opponent's shot: a shot
/// on the field is resolved on `player`'s own field, a shot off the field is
/// refused, and any other packet is ignored.
pub fn receive_shot(player: &mut Player, packet: &[u8; 3]) -> (r: Option<Result<CheckedCell, String>>)
    requires
        old(player).wf(),
    ensures
        final(player).wf(),
        final(player).marks() == old(player).marks(),
        match packet_shot(packet@) {
            None => r is None && final(player).own() == old(player).own(),
            Some((x, y)) => if x < old(player).side() && y < old(player).side() {
                &&& final(player).own() == after_shot(old(player).own(), x as int, y as int)
                &&& r matches Some(res) && (res is Ok <==> outcome(old(player).own(), x as int, y as int) is Some)
                &&& r matches Some(Ok(c)) ==> outcome(old(player).own(), x as int, y as int) == Some(c)
            } else {
                &&& final(player).own() == old(player).own()
                &&& r matches Some(Err(message)) && message@ == off_field_message()
            },
        },
{
    match incoming_shot(packet) {
        None => None,
        Some((x, y)) => {
            let size = player.size();
            if x < size && y < size {
                Some(player.take_damage(x, y))
            } else {
                Some(Err(String::from_str("Shot off the field")))
            }
        },
    }
}

} // verus!
