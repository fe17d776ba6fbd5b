//! The executor of movement: a step in one of the ten directions.

use crate::command::{
    text_to, view_to, Command, CommandBus, CommandView, Outbox, OutgoingView, ParsedCommandView,
};
use crate::locate::{find_tile, tile_of};
use crate::player::ClientId;
use crate::spatial::{direction_offset, offset_for_direction, shifted, Coords, Position};
use crate::world::{
    lemma_moved_preserves, lemma_requester, reparented, requester, tile_index, well_formed, Body,
    BodyView, NodeView, World,
};
use vstd::prelude::*;

verus! {

/// The tile one step away from `from` in the direction `offset`, if the
/// zone has a tile there.
pub open spec fn neighbour(nodes: Seq<NodeView>, from: Position, offset: Coords) -> Option<usize> {
    match shifted(from.coords, offset.x as int, offset.y as int, offset.z as int) {
        Some(coords) => tile_index(nodes, Position { zone: from.zone, coords }),
        None => None,
    }
}

/// Whether the player at node `id` asked for short descriptions.
pub open spec fn brief_of(nodes: Seq<NodeView>, id: int) -> bool {
    match nodes[id].body {
        BodyView::Player(player) => player.character.config.brief,
        _ => false,
    }
}

/// What one movement command does to the forest and the outbox.
///
/// The requester must stand on a tile and the token must name a direction,
/// else nothing happens. Where the zone has a tile one step away in that
/// direction, the requester moves onto it and is shown it; where it has
/// none, the requester is told so and nothing moves.
pub open spec fn movement_step(
    nodes: Seq<NodeView>,
    out: Seq<OutgoingView>,
    from: ClientId,
    direction: Seq<char>,
) -> (Seq<NodeView>, Seq<OutgoingView>) {
    match requester(nodes, from) {
        Some(player) => match tile_of(nodes, player as int) {
            Some(tile) => match direction_offset(direction) {
                Some(offset) => match neighbour(nodes, nodes[tile as int].position, offset) {
                    Some(target) => (
                        reparented(nodes, player as int, target as int),
                        out.push(view_to(from, target, brief_of(nodes, player as int))),
                    ),
                    None => (nodes, out.push(text_to(from, "You can't go that way."@))),
                },
                None => (nodes, out),
            },
            None => (nodes, out),
        },
        None => (nodes, out),
    }
}

/// What the movement commands among `commands` do, oldest first.
pub open spec fn movement_run(
    nodes: Seq<NodeView>,
    out: Seq<OutgoingView>,
    commands: Seq<ParsedCommandView>,
) -> (Seq<NodeView>, Seq<OutgoingView>)
    decreases commands.len(),
{
    if commands.len() == 0 {
        (nodes, out)
    } else {
        let (before, sent) = movement_run(nodes, out, commands.drop_last());
        match commands.last().command {
            CommandView::Movement(direction) => movement_step(
                before,
                sent,
                commands.last().from,
                direction,
            ),
            _ => (before, sent),
        }
    }
}

/// The tile one step away from `from` in the direction `offset`.
pub fn find_neighbour(world: &World, from: Position, offset: Coords) -> (r: Option<usize>)
    requires
        world.wf(),
    ensures
        r == neighbour(world@, from, offset),
{
    match from.coords.offset(offset) {
        Some(coords) => world.tile_at(Position { zone: from.zone, coords }),
        None => None,
    }
}

/// Whether the player at node `id` asked for short descriptions.
pub fn is_brief(world: &World, id: usize) -> (r: bool)
    requires
        id < world@.len(),
    ensures
        r == brief_of(world@, id as int),
{
    match world.body(id) {
        Body::Player(player) => player.character.config.brief,
        _ => false,
    }
}

/// Resolves one movement command.
fn move_one(world: &mut World, outbox: &mut Outbox, from: ClientId, direction: &String)
    requires
        old(world).wf(),
    ensures
        final(world).wf(),
        (final(world)@, final(outbox)@) == movement_step(
            old(world)@,
            old(outbox)@,
            from,
            direction@,
        ),
{
    let player = match world.find_player(from) {
        Some(player) => player,
        None => {
            return ;
        },
    };
    proof {
        lemma_requester(world@, from);
    }
    let tile = match find_tile(world, player) {
        Some(tile) => tile,
        None => {
            return ;
        },
    };
    let offset = match offset_for_direction(direction.as_str()) {
        Some(offset) => offset,
        None => {
            return ;
        },
    };
    match find_neighbour(world, world.position(tile), offset) {
        Some(target) => {
            let brief = is_brief(world, player);
            let done = world.reparent(player, target);
            assert(done);
            outbox.send_view(from, target, brief);
        },
        None => {
            outbox.send_text(from, String::from_str("You can't go that way."));
        },
    }
}

/// The executor of movement: resolves, oldest first, every movement command
/// that waits on the bus.
pub fn movement(world: &mut World, commands: &CommandBus, outbox: &mut Outbox)
    requires
        old(world).wf(),
    ensures
        final(world).wf(),
        (final(world)@, final(outbox)@) == movement_run(old(world)@, old(outbox)@, commands@),
{
    let mut k: usize = 0;
    assert(commands@.take(0) =~= Seq::<ParsedCommandView>::empty());
    while k < commands.len()
        invariant
            k <= commands@.len(),
            world.wf(),
            (world@, outbox@) == movement_run(old(world)@, old(outbox)@, commands@.take(k as int)),
        decreases commands@.len() - k,
    {
        let command = commands.get(k);
        proof {
            assert(commands@.take(k + 1).drop_last() =~= commands@.take(k as int));
            assert(commands@.take(k + 1).last() == command@);
        }
        if let Command::Movement(direction) = &command.command {
            move_one(world, outbox, command.from, direction);
        }
        k += 1;
    }
    assert(commands@.take(k as int) =~= commands@);
}

/// A step towards a tile arrives there: the requester becomes a child of
/// the neighbouring tile, stands where that tile is, and is sent its view.
/// The forest stays well formed.
pub proof fn lemma_movement_arrives(
    nodes: Seq<NodeView>,
    out: Seq<OutgoingView>,
    from: ClientId,
    direction: Seq<char>,
)
    requires
        well_formed(nodes),
        requester(nodes, from) matches Some(player) && (tile_of(nodes, player as int) matches Some(
            tile,
        ) && (direction_offset(direction) matches Some(offset) && neighbour(
            nodes,
            nodes[tile as int].position,
            offset,
        ) is Some)),
    ensures
        ({
            let player = requester(nodes, from)->0 as int;
            let tile = tile_of(nodes, player)->0 as int;
            let target = neighbour(
                nodes,
                nodes[tile].position,
                direction_offset(direction)->0,
            )->0;
            let (after, sent) = movement_step(nodes, out, from, direction);
            &&& well_formed(after)
            &&& after.len() == nodes.len()
            &&& after[player].parent == Some(target)
            &&& after[player].position == nodes[target as int].position
            &&& after[target as int].children.contains(player as usize)
            &&& sent == out.push(view_to(from, target, brief_of(nodes, player)))
        }),
{
    lemma_requester(nodes, from);
    let player = requester(nodes, from)->0 as int;
    let tile = tile_of(nodes, player)->0 as int;
    let target = neighbour(nodes, nodes[tile].position, direction_offset(direction)->0)->0;
    if nodes[player].parent != Some(target) {
        lemma_moved_preserves(nodes, player, Some(target), nodes[target as int].position);
        let after = reparented(nodes, player, target as int);
        assert(after[target as int].children.last() == player);
    }
}

/// A step towards nothing goes nowhere: where the zone has no tile one step
/// away, the requester is told so and the forest stays as it is.
pub proof fn lemma_movement_blocked(
    nodes: Seq<NodeView>,
    out: Seq<OutgoingView>,
    from: ClientId,
    direction: Seq<char>,
)
    requires
        requester(nodes, from) matches Some(player) && (tile_of(nodes, player as int) matches Some(
            tile,
        ) && (direction_offset(direction) matches Some(offset) && neighbour(
            nodes,
            nodes[tile as int].position,
            offset,
        ) is None)),
    ensures
        movement_step(nodes, out, from, direction) == (
            nodes,
            out.push(text_to(from, "You can't go that way."@)),
        ),
{
}

} // verus!
