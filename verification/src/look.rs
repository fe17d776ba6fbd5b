//! The executors that only show: `look`, which asks for the view of the
//! tile one stands on, and `map`, which draws the surroundings.

use crate::command::{
    text_to, view_to, Command, CommandBus, CommandView, Outbox, OutgoingView, ParsedCommandView,
};
use crate::locate::{find_tile, tile_of};
use crate::player::ClientId;
use crate::spatial::{shifted, Coords, Position};
use crate::text::push_char;
use crate::world::{lemma_requester, requester, tile_index, Body, BodyView, NodeView, World};
use vstd::prelude::*;

verus! {

/// The number of columns of a map.
pub const MAP_WIDTH: usize = 64;

/// The number of rows of a map.
pub const MAP_HEIGHT: usize = 16;

/// What the `look` commands among `commands` send, oldest first: to each
/// requester who stands on a tile, the full view of that tile.
pub open spec fn look_run(
    nodes: Seq<NodeView>,
    out: Seq<OutgoingView>,
    commands: Seq<ParsedCommandView>,
) -> Seq<OutgoingView>
    decreases commands.len(),
{
    if commands.len() == 0 {
        out
    } else {
        let sent = look_run(nodes, out, commands.drop_last());
        match commands.last().command {
            CommandView::Look => look_step(nodes, sent, commands.last().from),
            _ => sent,
        }
    }
}

/// What one `look` command sends.
pub open spec fn look_step(nodes: Seq<NodeView>, out: Seq<OutgoingView>, from: ClientId) -> Seq<
    OutgoingView,
> {
    match requester(nodes, from) {
        Some(player) => match tile_of(nodes, player as int) {
            Some(tile) => out.push(view_to(from, tile, false)),
            None => out,
        },
        None => out,
    }
}

/// The executor of `look`.
pub fn look(world: &World, commands: &CommandBus, outbox: &mut Outbox)
    requires
        world.wf(),
    ensures
        final(outbox)@ == look_run(world@, old(outbox)@, commands@),
{
    let mut k: usize = 0;
    assert(commands@.take(0) =~= Seq::<ParsedCommandView>::empty());
    while k < commands.len()
        invariant
            k <= commands@.len(),
            world.wf(),
            outbox@ == look_run(world@, old(outbox)@, commands@.take(k as int)),
        decreases commands@.len() - k,
    {
        let command = commands.get(k);
        proof {
            assert(commands@.take(k + 1).drop_last() =~= commands@.take(k as int));
            assert(commands@.take(k + 1).last() == command@);
        }
        if let Command::Look = &command.command {
            if let Some(player) = world.find_player(command.from) {
                proof {
                    lemma_requester(world@, command.from);
                }
                if let Some(tile) = find_tile(world, player) {
                    outbox.send_view(command.from, tile, false);
                }
            }
        }
        k += 1;
    }
    assert(commands@.take(k as int) =~= commands@);
}

/// The character that stands for the tile at node `tile`: the first of its
/// sprite, or a space where the sprite is empty.
pub open spec fn sprite_of(nodes: Seq<NodeView>, tile: usize) -> char {
    match nodes[tile as int].body {
        BodyView::Tile(body) => if body.sprite.len() > 0 {
            body.sprite[0]
        } else {
            ' '
        },
        _ => ' ',
    }
}

/// The character in row `row` and column `col` of the map drawn around
/// `centre`: `@` in the middle, elsewhere the sprite of the tile that lies
/// there, on the level of `centre`, or a space where none does.
pub open spec fn cell(nodes: Seq<NodeView>, centre: Position, row: int, col: int) -> char {
    if row == MAP_HEIGHT / 2 && col == MAP_WIDTH / 2 {
        '@'
    } else {
        match shifted(centre.coords, col - MAP_WIDTH / 2, row - MAP_HEIGHT / 2, 0) {
            Some(coords) => match tile_index(nodes, Position { zone: centre.zone, coords }) {
                Some(tile) => sprite_of(nodes, tile),
                None => ' ',
            },
            None => ' ',
        }
    }
}

/// Row `row` of the map drawn around `centre`.
pub open spec fn chart_row(nodes: Seq<NodeView>, centre: Position, row: int) -> Seq<char> {
    Seq::new(MAP_WIDTH as nat, |col: int| cell(nodes, centre, row, col))
}

/// The name of the zone, followed by the first `rows` rows of the map, each
/// on a line of its own.
pub open spec fn chart_rows(nodes: Seq<NodeView>, centre: Position, rows: nat) -> Seq<char>
    decreases rows,
{
    if rows == 0 {
        centre.zone.spec_name()
    } else {
        chart_rows(nodes, centre, (rows - 1) as nat).push('\n') + chart_row(
            nodes,
            centre,
            rows - 1,
        )
    }
}

/// The map drawn around `centre`.
pub open spec fn chart(nodes: Seq<NodeView>, centre: Position) -> Seq<char> {
    chart_rows(nodes, centre, MAP_HEIGHT as nat)
}

/// What one `map` command sends: the map drawn around the requester.
pub open spec fn map_step(nodes: Seq<NodeView>, out: Seq<OutgoingView>, from: ClientId) -> Seq<
    OutgoingView,
> {
    match requester(nodes, from) {
        Some(player) => out.push(text_to(from, chart(nodes, nodes[player as int].position))),
        None => out,
    }
}

/// What the `map` commands among `commands` send, oldest first.
pub open spec fn map_run(
    nodes: Seq<NodeView>,
    out: Seq<OutgoingView>,
    commands: Seq<ParsedCommandView>,
) -> Seq<OutgoingView>
    decreases commands.len(),
{
    if commands.len() == 0 {
        out
    } else {
        let sent = map_run(nodes, out, commands.drop_last());
        match commands.last().command {
            CommandView::Chart => map_step(nodes, sent, commands.last().from),
            _ => sent,
        }
    }
}

/// The character that stands for the tile at node `tile`.
pub fn sprite_char(world: &World, tile: usize) -> (c: char)
    requires
        tile < world@.len(),
    ensures
        c == sprite_of(world@, tile),
{
    match world.body(tile) {
        Body::Tile(body) => {
            let sprite = body.sprite.character.as_str();
            if sprite.unicode_len() > 0 {
                sprite.get_char(0)
            } else {
                ' '
            }
        },
        _ => ' ',
    }
}

/// The character in row `row` and column `col` of the map around `centre`.
pub fn draw_cell(world: &World, centre: Position, row: usize, col: usize) -> (c: char)
    requires
        world.wf(),
        row < MAP_HEIGHT,
        col < MAP_WIDTH,
    ensures
        c == cell(world@, centre, row as int, col as int),
{
    if row == MAP_HEIGHT / 2 && col == MAP_WIDTH / 2 {
        return '@';
    }
    let step = Coords { x: col as i32 - 32, y: row as i32 - 8, z: 0 };
    match centre.coords.offset(step) {
        Some(coords) => match world.tile_at(Position { zone: centre.zone, coords }) {
            Some(tile) => sprite_char(world, tile),
            None => ' ',
        },
        None => ' ',
    }
}

/// Draws the map around `centre`: the name of the zone, then sixteen rows
/// of sixty-four characters, each on a line of its own.
pub fn draw_map(world: &World, centre: Position) -> (text: String)
    requires
        world.wf(),
    ensures
        text@ == chart(world@, centre),
{
    let mut text = String::from_str(centre.zone.name());
    let mut row: usize = 0;
    while row < MAP_HEIGHT
        invariant
            world.wf(),
            row <= MAP_HEIGHT,
            text@ == chart_rows(world@, centre, row as nat),
        decreases MAP_HEIGHT - row,
    {
        let ghost head = text@.push('\n');
        push_char(&mut text, '\n');
        let mut col: usize = 0;
        while col < MAP_WIDTH
            invariant
                world.wf(),
                row < MAP_HEIGHT,
                col <= MAP_WIDTH,
                text@ == head + chart_row(world@, centre, row as int).take(col as int),
            decreases MAP_WIDTH - col,
        {
            let c = draw_cell(world, centre, row, col);
            push_char(&mut text, c);
            col += 1;
            assert(text@ =~= head + chart_row(world@, centre, row as int).take(col as int));
        }
        assert(chart_row(world@, centre, row as int).take(col as int) =~= chart_row(
            world@,
            centre,
            row as int,
        ));
        row += 1;
    }
    text
}

/// The executor of `map`.
pub fn map(world: &World, commands: &CommandBus, outbox: &mut Outbox)
    requires
        world.wf(),
    ensures
        final(outbox)@ == map_run(world@, old(outbox)@, commands@),
{
    let mut k: usize = 0;
    assert(commands@.take(0) =~= Seq::<ParsedCommandView>::empty());
    while k < commands.len()
        invariant
            k <= commands@.len(),
            world.wf(),
            outbox@ == map_run(world@, old(outbox)@, commands@.take(k as int)),
        decreases commands@.len() - k,
    {
        let command = commands.get(k);
        proof {
            assert(commands@.take(k + 1).drop_last() =~= commands@.take(k as int));
            assert(commands@.take(k + 1).last() == command@);
        }
        if let Command::Chart = &command.command {
            if let Some(player) = world.find_player(command.from) {
                proof {
                    lemma_requester(world@, command.from);
                }
                let text = draw_map(world, world.position(player));
                outbox.send_text(command.from, text);
            }
        }
        k += 1;
    }
    assert(commands@.take(k as int) =~= commands@);
}

} // verus!
