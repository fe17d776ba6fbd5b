//! Zones, coordinates and directions.
//!
//! Coordinates grow to the east (`x`), to the south (`y`) and upwards (`z`),
//! and are comparable only within one zone.

use crate::text::str_eq;
use vstd::prelude::*;

verus! {

/// A named partition of the coordinate space.
#[derive(Clone, Copy, Debug, PartialEq, Eq, Structural, Hash)]
pub enum Zone {
    Void,
    Movement,
}

/// A point of the integer grid of a zone.
#[derive(Clone, Copy, Debug, PartialEq, Eq, Structural, Hash)]
pub struct Coords {
    pub x: i32,
    pub y: i32,
    pub z: i32,
}

/// A place in the world: a zone and a point in it.
#[derive(Clone, Copy, Debug, PartialEq, Eq, Structural, Hash)]
pub struct Position {
    pub zone: Zone,
    pub coords: Coords,
}

/// The offset `(x, y, z)`.
pub open spec fn step(x: int, y: int, z: int) -> Coords
    recommends
        -1 <= x <= 1,
        -1 <= y <= 1,
        -1 <= z <= 1,
{
    Coords { x: x as i32, y: y as i32, z: z as i32 }
}

/// The step that a direction token stands for: the eight compass points,
/// up and down, each under a long and a short name.
pub open spec fn direction_offset(token: Seq<char>) -> Option<Coords> {
    if token == "north"@ || token == "n"@ {
        Some(step(0, -1, 0))
    } else if token == "northeast"@ || token == "ne"@ {
        Some(step(1, -1, 0))
    } else if token == "east"@ || token == "e"@ {
        Some(step(1, 0, 0))
    } else if token == "southeast"@ || token == "se"@ {
        Some(step(1, 1, 0))
    } else if token == "south"@ || token == "s"@ {
        Some(step(0, 1, 0))
    } else if token == "southwest"@ || token == "sw"@ {
        Some(step(-1, 1, 0))
    } else if token == "west"@ || token == "w"@ {
        Some(step(-1, 0, 0))
    } else if token == "northwest"@ || token == "nw"@ {
        Some(step(-1, -1, 0))
    } else if token == "up"@ || token == "u"@ {
        Some(step(0, 0, 1))
    } else if token == "down"@ || token == "d"@ {
        Some(step(0, 0, -1))
    } else {
        None
    }
}

/// Maps a direction token to its coordinate offset. A token that names no
/// direction yields `None`.
pub fn offset_for_direction(direction: &str) -> (r: Option<Coords>)
    ensures
        r == direction_offset(direction@),
{
    if str_eq(direction, "north") || str_eq(direction, "n") {
        Some(Coords { x: 0, y: -1, z: 0 })
    } else if str_eq(direction, "northeast") || str_eq(direction, "ne") {
        Some(Coords { x: 1, y: -1, z: 0 })
    } else if str_eq(direction, "east") || str_eq(direction, "e") {
        Some(Coords { x: 1, y: 0, z: 0 })
    } else if str_eq(direction, "southeast") || str_eq(direction, "se") {
        Some(Coords { x: 1, y: 1, z: 0 })
    } else if str_eq(direction, "south") || str_eq(direction, "s") {
        Some(Coords { x: 0, y: 1, z: 0 })
    } else if str_eq(direction, "southwest") || str_eq(direction, "sw") {
        Some(Coords { x: -1, y: 1, z: 0 })
    } else if str_eq(direction, "west") || str_eq(direction, "w") {
        Some(Coords { x: -1, y: 0, z: 0 })
    } else if str_eq(direction, "northwest") || str_eq(direction, "nw") {
        Some(Coords { x: -1, y: -1, z: 0 })
    } else if str_eq(direction, "up") || str_eq(direction, "u") {
        Some(Coords { x: 0, y: 0, z: 1 })
    } else if str_eq(direction, "down") || str_eq(direction, "d") {
        Some(Coords { x: 0, y: 0, z: -1 })
    } else {
        None
    }
}

/// Every offset moves by at most one step along each axis, and by at least
/// one step along some axis.
pub proof fn lemma_offsets_are_unit_steps(token: Seq<char>)
    ensures
        direction_offset(token) matches Some(d) ==> -1 <= d.x <= 1 && -1 <= d.y <= 1 && -1 <= d.z
            <= 1 && (d.x != 0 || d.y != 0 || d.z != 0),
{
}

/// Whether `x` can be a coordinate.
pub open spec fn in_range(x: int) -> bool {
    i32::MIN <= x <= i32::MAX
}

/// The point reached from `from` by the step `(dx, dy, dz)`, if the grid has
/// such a point.
pub open spec fn shifted(from: Coords, dx: int, dy: int, dz: int) -> Option<Coords> {
    if in_range(from.x + dx) && in_range(from.y + dy) && in_range(from.z + dz) {
        Some(Coords { x: (from.x + dx) as i32, y: (from.y + dy) as i32, z: (from.z + dz) as i32 })
    } else {
        None
    }
}

impl Coords {
    /// The origin of a zone.
    pub fn zero() -> (r: Coords)
        ensures
            r == (Coords { x: 0, y: 0, z: 0 }),
    {
        Coords { x: 0, y: 0, z: 0 }
    }

    /// The point reached from `self` by `offset`, or `None` where the sum
    /// leaves the grid.
    pub fn offset(&self, offset: Coords) -> (r: Option<Coords>)
        ensures
            r == shifted(*self, offset.x as int, offset.y as int, offset.z as int),
    {
        let x = self.x.checked_add(offset.x);
        let y = self.y.checked_add(offset.y);
        let z = self.z.checked_add(offset.z);
        match (x, y, z) {
            (Some(x), Some(y), Some(z)) => Some(Coords { x, y, z }),
            _ => None,
        }
    }
}

/// The zone that a name stands for. Any name but `movement` stands for the
/// void.
pub open spec fn zone_named(name: Seq<char>) -> Zone {
    if name == "movement"@ {
        Zone::Movement
    } else {
        Zone::Void
    }
}

impl Zone {
    /// The name of the zone, as it is shown to players.
    pub open spec fn spec_name(self) -> Seq<char> {
        match self {
            Zone::Void => "void"@,
            Zone::Movement => "movement"@,
        }
    }

    /// The name of the zone, as it is shown to players.
    pub fn name(&self) -> (r: &'static str)
        ensures
            r@ == self.spec_name(),
    {
        match self {
            Zone::Void => "void",
            Zone::Movement => "movement",
        }
    }

    /// The zone called `name`; an unknown name falls back to the void.
    pub fn from_name(name: &str) -> (r: Zone)
        ensures
            r == zone_named(name@),
    {
        if str_eq(name, "movement") {
            Zone::Movement
        } else {
            Zone::Void
        }
    }
}

/// Naming a zone and looking the name up again gives the zone back.
pub proof fn lemma_zone_name_round_trip(zone: Zone)
    ensures
        zone_named(zone.spec_name()) == zone,
{
    reveal_strlit("void");
    reveal_strlit("movement");
    if zone == Zone::Void {
        assert("void"@.len() != "movement"@.len());
    }
}

} // verus!
