//! The executor of `enter`: going through one of the transitions of a tile.

use crate::command::{
    text_to, view_to, Command, CommandBus, CommandView, Outbox, OutgoingView, ParsedCommandView,
};
use crate::locate::{find_tile, tile_of};
use crate::player::ClientId;
use crate::spatial::Position;
use crate::text::{any_lowers_to, lowercase, some_lowers_to, to_lowercase, trim, trimmed};
use crate::world::{
    lemma_moved_preserves, lemma_requester, reparented, requester, tile_index, well_formed, Body,
    BodyView, NodeView, World,
};
use vstd::prelude::*;

verus! {

/// Whether node `id` is a transition.
pub open spec fn is_transition(nodes: Seq<NodeView>, id: usize) -> bool {
    id < nodes.len() && nodes[id as int].body is Transition
}

/// The test that [`entrances`] applies to each child of a tile.
pub open spec fn transitions_of(nodes: Seq<NodeView>) -> spec_fn(usize) -> bool {
    |id: usize| is_transition(nodes, id)
}

/// The transitions that `tile` owns, in the order in which it lists them.
pub open spec fn entrances(nodes: Seq<NodeView>, tile: int) -> Seq<usize> {
    nodes[tile].children.filter(transitions_of(nodes))
}

/// The name under which an entrance is looked for: what was asked for,
/// trimmed and in lowercase. Nothing asked for fits every entrance.
pub open spec fn sought(target: Option<Seq<char>>) -> Option<Seq<char>> {
    match target {
        Some(name) => Some(lowercase(trimmed(name))),
        None => None,
    }
}

/// Whether the transition at node `id` fits what is sought: one of its
/// tags, in lowercase, is exactly that name.
pub open spec fn fits(nodes: Seq<NodeView>, id: usize, name: Option<Seq<char>>) -> bool {
    match name {
        Some(lowered) => id < nodes.len() && match nodes[id as int].body {
            BodyView::Transition(transition) => some_lowers_to(transition.tags, lowered),
            _ => false,
        },
        None => true,
    }
}

/// The first of `list` that fits what is sought.
pub open spec fn first_fit(nodes: Seq<NodeView>, list: Seq<usize>, name: Option<Seq<char>>)
    -> Option<usize>
    decreases list.len(),
{
    if list.len() == 0 {
        None
    } else if fits(nodes, list[0], name) {
        Some(list[0])
    } else {
        first_fit(nodes, list.skip(1), name)
    }
}

/// The place that the transition at node `id` leads to.
pub open spec fn destination_of(nodes: Seq<NodeView>, id: usize) -> Position {
    match nodes[id as int].body {
        BodyView::Transition(transition) => transition.destination,
        _ => nodes[id as int].position,
    }
}

/// What one `enter` command does to the forest and the outbox.
///
/// The requester must stand on a tile, else nothing happens. A tile without
/// transitions gives the answer that there is nowhere to enter. Else the
/// first transition of the tile that fits what was asked for is taken, or
/// the first of all where nothing was asked for; where none fits, the
/// requester is told so. Where the place that the transition leads to has a
/// tile, the requester moves onto it and is shown it in full; where it has
/// none, nothing happens.
pub open spec fn enter_step(
    nodes: Seq<NodeView>,
    out: Seq<OutgoingView>,
    from: ClientId,
    target: Option<Seq<char>>,
) -> (Seq<NodeView>, Seq<OutgoingView>) {
    match requester(nodes, from) {
        Some(player) => match tile_of(nodes, player as int) {
            Some(tile) => {
                let doors = entrances(nodes, tile as int);
                if doors.len() == 0 {
                    (nodes, out.push(text_to(from, "There is nowhere to enter from here."@)))
                } else {
                    match first_fit(nodes, doors, sought(target)) {
                        Some(door) => match tile_index(nodes, destination_of(nodes, door)) {
                            Some(arrival) => (
                                reparented(nodes, player as int, arrival as int),
                                out.push(view_to(from, arrival, false)),
                            ),
                            None => (nodes, out),
                        },
                        None => (nodes, out.push(text_to(from, "Could not find entrance."@))),
                    }
                }
            },
            None => (nodes, out),
        },
        None => (nodes, out),
    }
}

/// What the `enter` commands among `commands` do, oldest first.
pub open spec fn enter_run(
    nodes: Seq<NodeView>,
    out: Seq<OutgoingView>,
    commands: Seq<ParsedCommandView>,
) -> (Seq<NodeView>, Seq<OutgoingView>)
    decreases commands.len(),
{
    if commands.len() == 0 {
        (nodes, out)
    } else {
        let (before, sent) = enter_run(nodes, out, commands.drop_last());
        match commands.last().command {
            CommandView::Enter(target) => enter_step(before, sent, commands.last().from, target),
            _ => (before, sent),
        }
    }
}

/// The transitions that `tile` owns, in the order in which it lists them.
pub fn find_entrances(world: &World, tile: usize) -> (doors: Vec<usize>)
    requires
        tile < world@.len(),
    ensures
        doors@ == entrances(world@, tile as int),
        forall|j: int| 0 <= j < doors@.len() ==> is_transition(world@, #[trigger] doors@[j]),
{
    let list = world.children(tile);
    let ghost test = transitions_of(world@);
    let mut doors: Vec<usize> = Vec::new();
    let mut k: usize = 0;
    proof {
        reveal(Seq::filter);
        assert(list@.take(0) =~= Seq::<usize>::empty());
    }
    while k < list.len()
        invariant
            k <= list.len(),
            list@ == world@[tile as int].children,
            test == transitions_of(world@),
            doors@ == list@.take(k as int).filter(test),
            forall|j: int| 0 <= j < doors@.len() ==> is_transition(world@, #[trigger] doors@[j]),
        decreases list.len() - k,
    {
        let id = list[k];
        proof {
            reveal(Seq::filter);
            assert(list@.take(k + 1).drop_last() =~= list@.take(k as int));
            assert(list@.take(k + 1).last() == id);
            assert(test(id) == is_transition(world@, id));
        }
        if id < world.len() {
            if let Body::Transition(_) = world.body(id) {
                doors.push(id);
            }
        }
        k += 1;
    }
    assert(list@.take(k as int) =~= list@);
    doors
}

/// The first of `doors` that fits the name `lowered`, or the first of all
/// where no name is given.
pub fn find_fit(world: &World, doors: &Vec<usize>, lowered: &Option<String>) -> (r: Option<usize>)
    ensures
        r == first_fit(
            world@,
            doors@,
            match lowered {
                Some(name) => Some(name@),
                None => None,
            },
        ),
{
    let ghost name = match lowered {
        Some(name) => Some(name@),
        None => None,
    };
    let mut k: usize = 0;
    assert(doors@.skip(0) =~= doors@);
    while k < doors.len()
        invariant
            k <= doors.len(),
            name == match lowered {
                Some(name) => Some(name@),
                None => None,
            },
            first_fit(world@, doors@, name) == first_fit(world@, doors@.skip(k as int), name),
        decreases doors.len() - k,
    {
        let id = doors[k];
        assert(doors@.skip(k as int)[0] == id);
        let fitting = match lowered {
            Some(wanted) => id < world.len() && match world.body(id) {
                Body::Transition(transition) => any_lowers_to(&transition.tags, wanted),
                _ => false,
            },
            None => true,
        };
        assert(fitting == fits(world@, id, name));
        if fitting {
            return Some(id);
        }
        assert(doors@.skip(k as int).skip(1) =~= doors@.skip(k + 1));
        k += 1;
    }
    None
}

/// The place that the transition at node `id` leads to.
pub fn find_destination(world: &World, id: usize) -> (r: Position)
    requires
        id < world@.len(),
    ensures
        r == destination_of(world@, id),
{
    match world.body(id) {
        Body::Transition(transition) => Position {
            zone: transition.zone,
            coords: transition.coords,
        },
        _ => world.position(id),
    }
}

/// Resolves one `enter` command.
fn enter_one(world: &mut World, outbox: &mut Outbox, from: ClientId, target: &Option<String>)
    requires
        old(world).wf(),
    ensures
        final(world).wf(),
        (final(world)@, final(outbox)@) == enter_step(
            old(world)@,
            old(outbox)@,
            from,
            match target {
                Some(name) => Some(name@),
                None => None,
            },
        ),
{
    let player = match world.find_player(from) {
        Some(player) => player,
        None => {
            return ;
        },
    };
    proof {
        lemma_requester(world@, from);
    }
    let tile = match find_tile(world, player) {
        Some(tile) => tile,
        None => {
            return ;
        },
    };
    let doors = find_entrances(world, tile);
    if doors.len() == 0 {
        outbox.send_text(from, String::from_str("There is nowhere to enter from here."));
        return ;
    }
    let lowered = match target {
        Some(name) => Some(to_lowercase(trim(name.as_str()).as_str())),
        None => None,
    };
    let door = match find_fit(world, &doors, &lowered) {
        Some(door) => door,
        None => {
            outbox.send_text(from, String::from_str("Could not find entrance."));
            return ;
        },
    };
    proof {
        lemma_first_fit_is_listed(world@, doors@, sought(
            match target {
                Some(name) => Some(name@),
                None => None,
            },
        ));
    }
    let arrival = match world.tile_at(find_destination(world, door)) {
        Some(arrival) => arrival,
        None => {
            return ;
        },
    };
    let done = world.reparent(player, arrival);
    assert(done);
    outbox.send_view(from, arrival, false);
}

/// What [`first_fit`] finds is an entry of the list, it fits, and no entry
/// before it does.
pub proof fn lemma_first_fit_is_listed(
    nodes: Seq<NodeView>,
    list: Seq<usize>,
    name: Option<Seq<char>>,
)
    ensures
        match first_fit(nodes, list, name) {
            Some(id) => exists|k: int|
                0 <= k < list.len() && #[trigger] list[k] == id && fits(nodes, id, name)
                    && forall|j: int| 0 <= j < k ==> !fits(nodes, #[trigger] list[j], name),
            None => forall|j: int| 0 <= j < list.len() ==> !fits(nodes, #[trigger] list[j], name),
        },
    decreases list.len(),
{
    if list.len() > 0 && !fits(nodes, list[0], name) {
        let rest = list.skip(1);
        lemma_first_fit_is_listed(nodes, rest, name);
        match first_fit(nodes, rest, name) {
            Some(id) => {
                let k = choose|k: int|
                    0 <= k < rest.len() && #[trigger] rest[k] == id && fits(nodes, id, name)
                        && forall|j: int| 0 <= j < k ==> !fits(nodes, #[trigger] rest[j], name);
                assert(list[k + 1] == id);
                assert forall|j: int| 0 <= j < k + 1 implies !fits(
                    nodes,
                    #[trigger] list[j],
                    name,
                ) by {
                    if j > 0 {
                        assert(list[j] == rest[j - 1]);
                    }
                }
            },
            None => {
                assert forall|j: int| 0 <= j < list.len() implies !fits(
                    nodes,
                    #[trigger] list[j],
                    name,
                ) by {
                    if j > 0 {
                        assert(list[j] == rest[j - 1]);
                    }
                }
            },
        }
    } else if list.len() > 0 {
        assert(list[0] == list[0]);
    }
}

/// The executor of `enter`: resolves, oldest first, every `enter` command
/// that waits on the bus.
pub fn enter(world: &mut World, commands: &CommandBus, outbox: &mut Outbox)
    requires
        old(world).wf(),
    ensures
        final(world).wf(),
        (final(world)@, final(outbox)@) == enter_run(old(world)@, old(outbox)@, commands@),
{
    let mut k: usize = 0;
    assert(commands@.take(0) =~= Seq::<ParsedCommandView>::empty());
    while k < commands.len()
        invariant
            k <= commands@.len(),
            world.wf(),
            (world@, outbox@) == enter_run(old(world)@, old(outbox)@, commands@.take(k as int)),
        decreases commands@.len() - k,
    {
        let command = commands.get(k);
        proof {
            assert(commands@.take(k + 1).drop_last() =~= commands@.take(k as int));
            assert(commands@.take(k + 1).last() == command@);
        }
        if let Command::Enter(target) = &command.command {
            enter_one(world, outbox, command.from, target);
        }
        k += 1;
    }
    assert(commands@.take(k as int) =~= commands@);
}

/// Where no entrance is named, the first of the list is taken.
pub proof fn lemma_enter_default_is_first(nodes: Seq<NodeView>, list: Seq<usize>)
    ensures
        first_fit(nodes, list, None) == if list.len() > 0 {
            Some(list[0])
        } else {
            None
        },
{
}

/// On a tile without transitions the requester is told that there is
/// nowhere to enter, whatever was asked for, and the forest stays as it is.
pub proof fn lemma_enter_nowhere(
    nodes: Seq<NodeView>,
    out: Seq<OutgoingView>,
    from: ClientId,
    target: Option<Seq<char>>,
)
    requires
        requester(nodes, from) matches Some(player) && (tile_of(nodes, player as int) matches Some(
            tile,
        ) && entrances(nodes, tile as int).len() == 0),
    ensures
        enter_step(nodes, out, from, target) == (
            nodes,
            out.push(text_to(from, "There is nowhere to enter from here."@)),
        ),
{
}

/// Where the tile has transitions but none fits what was asked for, the
/// requester is told that the entrance was not found, and the forest stays
/// as it is.
pub proof fn lemma_enter_unmatched(
    nodes: Seq<NodeView>,
    out: Seq<OutgoingView>,
    from: ClientId,
    target: Option<Seq<char>>,
)
    requires
        requester(nodes, from) matches Some(player) && (tile_of(nodes, player as int) matches Some(
            tile,
        ) && entrances(nodes, tile as int).len() > 0 && first_fit(
            nodes,
            entrances(nodes, tile as int),
            sought(target),
        ) is None),
    ensures
        enter_step(nodes, out, from, target) == (
            nodes,
            out.push(text_to(from, "Could not find entrance."@)),
        ),
{
}

/// Going through a transition arrives where it leads: the requester
/// becomes a child of the tile at the destination and stands at the
/// destination. The forest stays well formed.
pub proof fn lemma_enter_arrives(
    nodes: Seq<NodeView>,
    out: Seq<OutgoingView>,
    from: ClientId,
    target: Option<Seq<char>>,
)
    requires
        well_formed(nodes),
        requester(nodes, from) matches Some(player) && (tile_of(nodes, player as int) matches Some(
            tile,
        ) && (first_fit(nodes, entrances(nodes, tile as int), sought(target)) matches Some(door)
            && tile_index(nodes, destination_of(nodes, door)) is Some)),
    ensures
        ({
            let player = requester(nodes, from)->0 as int;
            let tile = tile_of(nodes, player)->0 as int;
            let door = first_fit(nodes, entrances(nodes, tile), sought(target))->0;
            let arrival = tile_index(nodes, destination_of(nodes, door))->0;
            let (after, sent) = enter_step(nodes, out, from, target);
            &&& well_formed(after)
            &&& after.len() == nodes.len()
            &&& after[player].parent == Some(arrival)
            &&& after[player].position == destination_of(nodes, door)
            &&& sent == out.push(view_to(from, arrival, false))
        }),
{
    lemma_requester(nodes, from);
    let player = requester(nodes, from)->0 as int;
    let tile = tile_of(nodes, player)->0 as int;
    let door = first_fit(nodes, entrances(nodes, tile), sought(target))->0;
    let arrival = tile_index(nodes, destination_of(nodes, door))->0;
    if nodes[player].parent != Some(arrival) {
        lemma_moved_preserves(nodes, player, Some(arrival), nodes[arrival as int].position);
    }
}

} // verus!
