//! Decoding the tuples of the world description.
//!
//! The host writes a spawn point as a tuple that starts with two numbers,
//! and a door as a tuple that starts with four numbers, the name of a map
//! and two spawn indices.  Entries after those are ignored.  A tuple that is
//! too short, or that holds something else where a number or a name is due,
//! is malformed.

use crate::error::PrepareError;
use crate::coord::Coord;
use crate::g::{GDoor, GSpawn};
use vstd::prelude::*;

verus! {

/// One entry of a tuple.
#[derive(Debug)]
pub enum Field {
    /// A number: as a coordinate, and as an unsigned integer if it is one.
    Number { value: Coord, whole: Option<u64> },
    /// A text.
    Text(String),
    /// Anything else.
    Other,
}

/// Whether a tuple starts as a spawn point does.
pub open spec fn spawn_shaped(fields: Seq<Field>) -> bool {
    &&& fields.len() >= 2
    &&& fields[0] is Number
    &&& fields[1] is Number
}

/// The spawn point that a tuple describes.
pub open spec fn spawn_of(fields: Seq<Field>) -> GSpawn {
    GSpawn { x: fields[0]->value, y: fields[1]->value }
}

/// Whether an entry is a number without sign or fraction.
pub open spec fn is_index(field: Field) -> bool {
    field matches Field::Number { whole: Some(_), .. }
}

/// An index cut down to eight bits, as a door holds it.
pub open spec fn short_index(field: Field) -> u8 {
    (field->whole->0 % 256) as u8
}

/// Whether a tuple starts as a door does.
pub open spec fn door_shaped(fields: Seq<Field>) -> bool {
    &&& fields.len() >= 7
    &&& fields[0] is Number
    &&& fields[1] is Number
    &&& fields[2] is Number
    &&& fields[3] is Number
    &&& fields[4] is Text
    &&& is_index(fields[5])
    &&& is_index(fields[6])
}

/// Whether `door` is the door that a tuple describes.
pub open spec fn door_matches(door: GDoor, fields: Seq<Field>) -> bool {
    &&& door.x == fields[0]->value
    &&& door.y == fields[1]->value
    &&& door.width == fields[2]->value
    &&& door.height == fields[3]->value
    &&& door.map_to@ == fields[4]->Text_0@
    &&& door.spawn_to == short_index(fields[5])
    &&& door.spawn_from == short_index(fields[6])
}

/// The coordinate in an entry, if the entry is a number.
fn number(field: &Field) -> (value: Option<Coord>)
    ensures
        match value {
            Some(c) => *field is Number && c == field->value,
            None => !(*field is Number),
        },
{
    match field {
        Field::Number { value, whole: _ } => Some(*value),
        _ => None,
    }
}

/// The index in an entry, cut down to eight bits, if the entry is a number
/// without sign or fraction.
fn index(field: &Field) -> (value: Option<u8>)
    ensures
        match value {
            Some(i) => is_index(*field) && i == short_index(*field),
            None => !is_index(*field),
        },
{
    match field {
        Field::Number { value: _, whole: Some(w) } => Some((*w % 256) as u8),
        _ => None,
    }
}

/// Decodes a spawn point.  Fails with `MalformedInput` when the tuple does
/// not start with two numbers.
pub fn decode_spawn(fields: &Vec<Field>) -> (result: Result<GSpawn, PrepareError>)
    ensures
        match result {
            Ok(spawn) => spawn_shaped(fields@) && spawn == spawn_of(fields@),
            Err(e) => e == PrepareError::MalformedInput && !spawn_shaped(fields@),
        },
{
    if fields.len() < 2 {
        return Err(PrepareError::MalformedInput);
    }
    let x = match number(&fields[0]) {
        Some(c) => c,
        None => {
            return Err(PrepareError::MalformedInput);
        },
    };
    let y = match number(&fields[1]) {
        Some(c) => c,
        None => {
            return Err(PrepareError::MalformedInput);
        },
    };
    Ok(GSpawn { x, y })
}

/// Decodes a door.  Fails with `MalformedInput` when the tuple does not
/// start with four numbers, a text and two indices.
pub fn decode_door(fields: &Vec<Field>) -> (result: Result<GDoor, PrepareError>)
    ensures
        match result {
            Ok(door) => door_shaped(fields@) && door_matches(door, fields@),
            Err(e) => e == PrepareError::MalformedInput && !door_shaped(fields@),
        },
{
    if fields.len() < 7 {
        return Err(PrepareError::MalformedInput);
    }
    let x = match number(&fields[0]) {
        Some(c) => c,
        None => {
            return Err(PrepareError::MalformedInput);
        },
    };
    let y = match number(&fields[1]) {
        Some(c) => c,
        None => {
            return Err(PrepareError::MalformedInput);
        },
    };
    let width = match number(&fields[2]) {
        Some(c) => c,
        None => {
            return Err(PrepareError::MalformedInput);
        },
    };
    let height = match number(&fields[3]) {
        Some(c) => c,
        None => {
            return Err(PrepareError::MalformedInput);
        },
    };
    let map_to: String = match &fields[4] {
        Field::Text(text) => text.clone(),
        _ => {
            return Err(PrepareError::MalformedInput);
        },
    };
    let spawn_to = match index(&fields[5]) {
        Some(i) => i,
        None => {
            return Err(PrepareError::MalformedInput);
        },
    };
    let spawn_from = match index(&fields[6]) {
        Some(i) => i,
        None => {
            return Err(PrepareError::MalformedInput);
        },
    };
    Ok(GDoor { x, y, width, height, map_to, spawn_to, spawn_from })
}

/// Decodes a list of spawn points, in order.  Fails with `MalformedInput`
/// when one of the tuples is malformed.
pub fn decode_spawns(list: &Vec<Vec<Field>>) -> (result: Result<Vec<GSpawn>, PrepareError>)
    ensures
        match result {
            Ok(spawns) => {
                &&& spawns@.len() == list@.len()
                &&& forall|i: int|
                    0 <= i < list@.len() ==> spawn_shaped((#[trigger] list@[i])@) && spawns@[i]
                        == spawn_of(list@[i]@)
            },
            Err(e) => e == PrepareError::MalformedInput && exists|i: int|
                0 <= i < list@.len() && !spawn_shaped((#[trigger] list@[i])@),
        },
{
    let mut spawns: Vec<GSpawn> = Vec::new();
    let mut i: usize = 0;
    while i < list.len()
        invariant
            0 <= i <= list.len(),
            spawns@.len() == i,
            forall|k: int|
                0 <= k < i ==> spawn_shaped((#[trigger] list@[k])@) && spawns@[k] == spawn_of(
                    list@[k]@,
                ),
        decreases list.len() - i,
    {
        match decode_spawn(&list[i]) {
            Ok(spawn) => {
                spawns.push(spawn);
            },
            Err(e) => {
                assert(!spawn_shaped(list@[i as int]@));
                return Err(e);
            },
        }
        i = i + 1;
    }
    Ok(spawns)
}

/// Decodes a list of doors, in order.  Fails with `MalformedInput` when
/// one of the tuples is malformed.
pub fn decode_doors(list: &Vec<Vec<Field>>) -> (result: Result<Vec<GDoor>, PrepareError>)
    ensures
        match result {
            Ok(doors) => {
                &&& doors@.len() == list@.len()
                &&& forall|i: int|
                    0 <= i < list@.len() ==> door_shaped((#[trigger] list@[i])@) && door_matches(
                        doors@[i],
                        list@[i]@,
                    )
            },
            Err(e) => e == PrepareError::MalformedInput && exists|i: int|
                0 <= i < list@.len() && !door_shaped((#[trigger] list@[i])@),
        },
{
    let mut doors: Vec<GDoor> = Vec::new();
    let mut i: usize = 0;
    while i < list.len()
        invariant
            0 <= i <= list.len(),
            doors@.len() == i,
            forall|k: int|
                0 <= k < i ==> door_shaped((#[trigger] list@[k])@) && door_matches(
                    doors@[k],
                    list@[k]@,
                ),
        decreases list.len() - i,
    {
        match decode_door(&list[i]) {
            Ok(door) => {
                doors.push(door);
            },
            Err(e) => {
                assert(!door_shaped(list@[i as int]@));
                return Err(e);
            },
        }
        i = i + 1;
    }
    Ok(doors)
}

} // verus!
