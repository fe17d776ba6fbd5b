//! The executor of teleport, a command for characters that hold the
//! teleport permission.

use crate::command::{Command, CommandBus, CommandView, ParsedCommandView};
use crate::player::{grants, ClientId, TELEPORT};
use crate::spatial::{zone_named, Coords, Position, Zone};
use crate::text::str_eq;
use crate::world::{
    displaced, lemma_moved_preserves, lemma_requester, reparented, requester, tile_index,
    well_formed, Body, BodyView, Kind, NodeView, World,
};
use vstd::prelude::*;

verus! {

/// Whether the player at node `id` may do what `permission` stands for.
pub open spec fn may(nodes: Seq<NodeView>, id: int, permission: i16) -> bool {
    match nodes[id].body {
        BodyView::Player(player) => grants(player.character.role, permission),
        _ => false,
    }
}

/// The zone that `region` stands for to someone in the zone `current`:
/// `here` is the current zone, any other name the zone of that name.
pub open spec fn zone_meant(region: Seq<char>, current: Zone) -> Zone {
    if region == "here"@ {
        current
    } else {
        zone_named(region)
    }
}

/// The forest after the node `id` went to `position`: onto the tile there,
/// where there is one, else to the bare place, owned by nothing.
pub open spec fn landed(nodes: Seq<NodeView>, id: int, position: Position) -> Seq<NodeView> {
    match tile_index(nodes, position) {
        Some(tile) => reparented(nodes, id, tile as int),
        None => displaced(nodes, id, position),
    }
}

/// What one teleport command does to the forest.
///
/// A requester who does not hold the teleport permission is ignored. One
/// who does goes to the coordinates given, in the zone meant. Nothing is
/// sent in either case.
pub open spec fn teleport_step(
    nodes: Seq<NodeView>,
    from: ClientId,
    region: Seq<char>,
    coords: Coords,
) -> Seq<NodeView> {
    match requester(nodes, from) {
        Some(player) => if may(nodes, player as int, TELEPORT) {
            landed(
                nodes,
                player as int,
                Position { zone: zone_meant(region, nodes[player as int].position.zone), coords },
            )
        } else {
            nodes
        },
        None => nodes,
    }
}

/// What the teleport commands among `commands` do, oldest first.
pub open spec fn teleport_run(nodes: Seq<NodeView>, commands: Seq<ParsedCommandView>) -> Seq<
    NodeView,
>
    decreases commands.len(),
{
    if commands.len() == 0 {
        nodes
    } else {
        let before = teleport_run(nodes, commands.drop_last());
        match commands.last().command {
            CommandView::Teleport { region, x, y, z } => teleport_step(
                before,
                commands.last().from,
                region,
                Coords { x, y, z },
            ),
            _ => before,
        }
    }
}

/// Whether the player at node `id` may do what `permission` stands for.
pub fn is_allowed(world: &World, id: usize, permission: i16) -> (r: bool)
    requires
        id < world@.len(),
    ensures
        r == may(world@, id as int, permission),
{
    match world.body(id) {
        Body::Player(player) => player.character.can(permission),
        _ => false,
    }
}

/// Sends the player at node `id` to `position`. Returns whether `id` is a
/// player; if not, nothing changes.
pub fn land(world: &mut World, id: usize, position: Position) -> (done: bool)
    requires
        old(world).wf(),
    ensures
        final(world).wf(),
        done == (id < old(world)@.len() && old(world)@[id as int].body is Player),
        final(world)@ == if done {
            landed(old(world)@, id as int, position)
        } else {
            old(world)@
        },
{
    if id >= world.len() || world.body(id).kind() != Kind::Player {
        return false;
    }
    match world.tile_at(position) {
        Some(tile) => {
            let done = world.reparent(id, tile);
            assert(done);
        },
        None => {
            let done = world.displace(id, position);
            assert(done);
        },
    }
    true
}

/// Resolves one teleport command.
fn teleport_one(world: &mut World, from: ClientId, region: &String, coords: Coords)
    requires
        old(world).wf(),
    ensures
        final(world).wf(),
        final(world)@ == teleport_step(old(world)@, from, region@, coords),
{
    let player = match world.find_player(from) {
        Some(player) => player,
        None => {
            return ;
        },
    };
    proof {
        lemma_requester(world@, from);
    }
    if !is_allowed(world, player, TELEPORT) {
        return ;
    }
    let zone = if str_eq(region.as_str(), "here") {
        world.position(player).zone
    } else {
        Zone::from_name(region.as_str())
    };
    let done = land(world, player, Position { zone, coords });
    assert(done);
}

/// The executor of teleport: resolves, oldest first, every teleport command
/// that waits on the bus.
pub fn teleport(world: &mut World, commands: &CommandBus)
    requires
        old(world).wf(),
    ensures
        final(world).wf(),
        final(world)@ == teleport_run(old(world)@, commands@),
{
    let mut k: usize = 0;
    assert(commands@.take(0) =~= Seq::<ParsedCommandView>::empty());
    while k < commands.len()
        invariant
            k <= commands@.len(),
            world.wf(),
            world@ == teleport_run(old(world)@, commands@.take(k as int)),
        decreases commands@.len() - k,
    {
        let command = commands.get(k);
        proof {
            assert(commands@.take(k + 1).drop_last() =~= commands@.take(k as int));
            assert(commands@.take(k + 1).last() == command@);
        }
        if let Command::Teleport { region, x, y, z } = &command.command {
            teleport_one(world, command.from, region, Coords { x: *x, y: *y, z: *z });
        }
        k += 1;
    }
    assert(commands@.take(k as int) =~= commands@);
}

/// A requester who lacks the teleport permission stays where they are:
/// the command changes nothing.
pub proof fn lemma_teleport_needs_permission(
    nodes: Seq<NodeView>,
    from: ClientId,
    region: Seq<char>,
    coords: Coords,
)
    requires
        requester(nodes, from) matches Some(player) ==> !may(nodes, player as int, TELEPORT),
    ensures
        teleport_step(nodes, from, region, coords) == nodes,
{
}

/// A requester who holds the teleport permission arrives: after the command
/// they stand at the coordinates given, in the zone meant, on the tile of
/// that place if it has one. The forest stays well formed.
pub proof fn lemma_teleport_arrives(
    nodes: Seq<NodeView>,
    from: ClientId,
    region: Seq<char>,
    coords: Coords,
)
    requires
        well_formed(nodes),
        requester(nodes, from) matches Some(player) && may(nodes, player as int, TELEPORT),
    ensures
        ({
            let player = requester(nodes, from)->0 as int;
            let place = Position {
                zone: zone_meant(region, nodes[player].position.zone),
                coords,
            };
            let after = teleport_step(nodes, from, region, coords);
            &&& well_formed(after)
            &&& after.len() == nodes.len()
            &&& after[player].position == place
            &&& after[player].parent == tile_index(nodes, place)
        }),
{
    lemma_requester(nodes, from);
    let player = requester(nodes, from)->0 as int;
    let place = Position { zone: zone_meant(region, nodes[player].position.zone), coords };
    match tile_index(nodes, place) {
        Some(tile) => {
            if nodes[player].parent != Some(tile) {
                lemma_moved_preserves(nodes, player, Some(tile), nodes[tile as int].position);
            }
        },
        None => {
            lemma_moved_preserves(nodes, player, None, place);
        },
    }
}

} // verus!
