//! Finding one's way in the forest: the tile that a node stands on, the
//! inventory that a player carries.

use crate::world::{Kind, NodeView, World};
use vstd::prelude::*;

verus! {

/// The tile that owns node `id`, if its owner is a tile.
pub open spec fn tile_of(nodes: Seq<NodeView>, id: int) -> Option<usize> {
    match nodes[id].parent {
        Some(p) => if p < nodes.len() && nodes[p as int].body is Tile {
            Some(p)
        } else {
            None
        },
        None => None,
    }
}

/// The first entry of `list` that is a node of kind `kind`.
pub open spec fn first_of_kind(nodes: Seq<NodeView>, list: Seq<usize>, kind: Kind) -> Option<
    usize,
>
    decreases list.len(),
{
    if list.len() == 0 {
        None
    } else if list[0] < nodes.len() && nodes[list[0] as int].body.kind() == kind {
        Some(list[0])
    } else {
        first_of_kind(nodes, list.skip(1), kind)
    }
}

/// The inventory of node `id`: the first of its children that is one.
pub open spec fn inventory_of(nodes: Seq<NodeView>, id: int) -> Option<usize> {
    first_of_kind(nodes, nodes[id].children, Kind::Inventory)
}

/// The tile that owns node `id`, if its owner is a tile.
pub fn find_tile(world: &World, id: usize) -> (r: Option<usize>)
    requires
        id < world@.len(),
    ensures
        r == tile_of(world@, id as int),
{
    match world.parent(id) {
        Some(p) => {
            if p < world.len() && world.body(p).kind() == Kind::Tile {
                Some(p)
            } else {
                None
            }
        },
        None => None,
    }
}

/// The first child of node `id` that is of kind `kind`.
pub fn find_child(world: &World, id: usize, kind: Kind) -> (r: Option<usize>)
    requires
        id < world@.len(),
    ensures
        r == first_of_kind(world@, world@[id as int].children, kind),
{
    let list = world.children(id);
    let mut k: usize = 0;
    assert(list@.skip(0) =~= list@);
    while k < list.len()
        invariant
            k <= list.len(),
            list@ == world@[id as int].children,
            first_of_kind(world@, list@, kind) == first_of_kind(world@, list@.skip(k as int), kind),
        decreases list.len() - k,
    {
        let c = list[k];
        assert(list@.skip(k as int)[0] == c);
        if c < world.len() && world.body(c).kind() == kind {
            return Some(c);
        }
        assert(list@.skip(k as int).skip(1) =~= list@.skip(k + 1));
        k += 1;
    }
    None
}

/// The inventory of node `id`: the first of its children that is one.
pub fn find_inventory(world: &World, id: usize) -> (r: Option<usize>)
    requires
        id < world@.len(),
    ensures
        r == inventory_of(world@, id as int),
{
    find_child(world, id, Kind::Inventory)
}

/// What [`first_of_kind`] finds is an entry of the list and a node of the
/// kind asked for.
pub proof fn lemma_first_of_kind(nodes: Seq<NodeView>, list: Seq<usize>, kind: Kind)
    ensures
        first_of_kind(nodes, list, kind) matches Some(id) ==> list.contains(id) && id
            < nodes.len() && nodes[id as int].body.kind() == kind,
    decreases list.len(),
{
    if list.len() > 0 {
        if list[0] < nodes.len() && nodes[list[0] as int].body.kind() == kind {
            assert(list[0] == list[0]);
        } else {
            lemma_first_of_kind(nodes, list.skip(1), kind);
            if let Some(id) = first_of_kind(nodes, list.skip(1), kind) {
                let k = list.skip(1).index_of(id);
                assert(list[k + 1] == id);
            }
        }
    }
}

} // verus!
