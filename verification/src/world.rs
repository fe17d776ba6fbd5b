//! The spatial graph and the containment forest.
//!
//! Everything that exists in the world is a node of one arena: tiles, the
//! transitions that lead away from them, items, inventories and players. A
//! node is owned by at most one other node, and the owner lists its children
//! in the order in which they arrived. Tiles are the roots; each is found by
//! its zone and coordinates. Every node caches the position of the tile that
//! contains it.

use crate::player::{Character, CharacterView, Client, ClientId};
use crate::spatial::{Coords, Position, Zone};
use std::collections::HashMap;
use vstd::prelude::*;

verus! {

broadcast use vstd::std_specs::hash::group_hash_axioms;

/// How a tile is drawn on a map.
#[derive(Debug)]
pub struct Sprite {
    pub character: String,
}

/// A location.
#[derive(Debug)]
pub struct Tile {
    pub name: String,
    pub description: String,
    pub sprite: Sprite,
}

/// A one-way passage from the tile that owns it to another place.
#[derive(Debug)]
pub struct Transition {
    pub tags: Vec<String>,
    pub zone: Zone,
    pub coords: Coords,
}

/// A thing that lies on a tile or in an inventory.
#[derive(Debug)]
pub struct Item {
    pub name: String,
    pub short_name: String,
    pub tags: Vec<String>,
    pub takable: bool,
}

/// A player in the world: the connection, the character played, and whether
/// the connection is authenticated.
#[derive(Debug)]
pub struct Player {
    pub client: Client,
    pub character: Character,
    pub online: bool,
}

/// What a node is.
#[derive(Debug)]
pub enum Body {
    Tile(Tile),
    Transition(Transition),
    Item(Item),
    Inventory,
    Player(Player),
}

/// The capability that a node has by being what it is.
#[derive(Clone, Copy, Debug, PartialEq, Eq, Structural)]
pub enum Kind {
    Tile,
    Transition,
    Item,
    Inventory,
    Player,
}

/// A [`Tile`] as contracts see it: its texts as sequences of characters.
pub struct TileView {
    pub name: Seq<char>,
    pub description: Seq<char>,
    pub sprite: Seq<char>,
}

/// A [`Transition`] as contracts see it.
pub struct TransitionView {
    pub tags: Seq<Seq<char>>,
    pub destination: Position,
}

/// An [`Item`] as contracts see it.
pub struct ItemView {
    pub name: Seq<char>,
    pub short_name: Seq<char>,
    pub tags: Seq<Seq<char>>,
    pub takable: bool,
}

/// A [`Player`] as contracts see it.
pub struct PlayerView {
    pub client: Client,
    pub character: CharacterView,
    pub online: bool,
}

/// A [`Body`] as contracts see it.
pub enum BodyView {
    Tile(TileView),
    Transition(TransitionView),
    Item(ItemView),
    Inventory,
    Player(PlayerView),
}

impl View for Tile {
    type V = TileView;

    open spec fn view(&self) -> TileView {
        TileView {
            name: self.name@,
            description: self.description@,
            sprite: self.sprite.character@,
        }
    }
}

impl View for Transition {
    type V = TransitionView;

    open spec fn view(&self) -> TransitionView {
        TransitionView {
            tags: self.tags.deep_view(),
            destination: Position { zone: self.zone, coords: self.coords },
        }
    }
}

impl View for Item {
    type V = ItemView;

    open spec fn view(&self) -> ItemView {
        ItemView {
            name: self.name@,
            short_name: self.short_name@,
            tags: self.tags.deep_view(),
            takable: self.takable,
        }
    }
}

impl View for Player {
    type V = PlayerView;

    open spec fn view(&self) -> PlayerView {
        PlayerView { client: self.client, character: self.character@, online: self.online }
    }
}

impl View for Body {
    type V = BodyView;

    open spec fn view(&self) -> BodyView {
        match self {
            Body::Tile(tile) => BodyView::Tile(tile@),
            Body::Transition(transition) => BodyView::Transition(transition@),
            Body::Item(item) => BodyView::Item(item@),
            Body::Inventory => BodyView::Inventory,
            Body::Player(player) => BodyView::Player(player@),
        }
    }
}

impl BodyView {
    /// The kind of node that this is.
    pub open spec fn kind(self) -> Kind {
        match self {
            BodyView::Tile(_) => Kind::Tile,
            BodyView::Transition(_) => Kind::Transition,
            BodyView::Item(_) => Kind::Item,
            BodyView::Inventory => Kind::Inventory,
            BodyView::Player(_) => Kind::Player,
        }
    }
}

impl Body {
    /// The kind of node that this is.
    pub fn kind(&self) -> (k: Kind)
        ensures
            k == self@.kind(),
    {
        match self {
            Body::Tile(_) => Kind::Tile,
            Body::Transition(_) => Kind::Transition,
            Body::Item(_) => Kind::Item,
            Body::Inventory => Kind::Inventory,
            Body::Player(_) => Kind::Player,
        }
    }
}

/// Which kind of node may own which: a tile holds transitions, items and
/// players; a player carries inventories; an inventory holds items.
pub open spec fn may_contain(owner: Kind, owned: Kind) -> bool {
    match (owner, owned) {
        (Kind::Tile, Kind::Transition) => true,
        (Kind::Tile, Kind::Item) => true,
        (Kind::Tile, Kind::Player) => true,
        (Kind::Player, Kind::Inventory) => true,
        (Kind::Inventory, Kind::Item) => true,
        _ => false,
    }
}

/// How deep below a tile a node of some kind can lie at most.
pub open spec fn rank(kind: Kind) -> nat {
    match kind {
        Kind::Tile => 0,
        Kind::Transition => 1,
        Kind::Player => 1,
        Kind::Inventory => 2,
        Kind::Item => 3,
    }
}

/// Whether a node of kind `owner` may own one of kind `owned`.
pub fn allowed(owner: Kind, owned: Kind) -> (r: bool)
    ensures
        r == may_contain(owner, owned),
{
    match (owner, owned) {
        (Kind::Tile, Kind::Transition) => true,
        (Kind::Tile, Kind::Item) => true,
        (Kind::Tile, Kind::Player) => true,
        (Kind::Player, Kind::Inventory) => true,
        (Kind::Inventory, Kind::Item) => true,
        _ => false,
    }
}

/// An owner always ranks strictly above what it owns, so ownership cannot
/// run in a circle.
pub proof fn lemma_owner_ranks_higher(owner: Kind, owned: Kind)
    requires
        may_contain(owner, owned),
    ensures
        rank(owner) < rank(owned),
{
}

/// One node of the forest, as contracts see it.
pub struct NodeView {
    pub parent: Option<usize>,
    pub children: Seq<usize>,
    pub position: Position,
    pub body: BodyView,
}

/// Every owner is a node that may own its child and lists it; every listed
/// child names the lister as its owner; no child is listed twice.
pub open spec fn links_ok(nodes: Seq<NodeView>) -> bool {
    &&& nodes.len() <= usize::MAX
    &&& forall|i: int|
        #![trigger nodes[i].parent]
        0 <= i < nodes.len() ==> (nodes[i].parent matches Some(p) ==> {
            &&& p < nodes.len()
            &&& may_contain(nodes[p as int].body.kind(), nodes[i].body.kind())
            &&& nodes[p as int].children.contains(i as usize)
        })
    &&& forall|p: int, k: int|
        #![trigger nodes[p].children[k]]
        0 <= p < nodes.len() && 0 <= k < nodes[p].children.len() ==> {
            &&& nodes[p].children[k] < nodes.len()
            &&& nodes[nodes[p].children[k] as int].parent == Some(p as usize)
        }
    &&& forall|p: int|
        #![trigger nodes[p].children]
        0 <= p < nodes.len() ==> nodes[p].children.no_duplicates()
}

/// Whether node `i` is the tile at `position`.
pub open spec fn is_tile_at(nodes: Seq<NodeView>, i: int, position: Position) -> bool {
    0 <= i < nodes.len() && nodes[i].body is Tile && nodes[i].position == position
}

/// The tile at `position`, if there is one.
pub open spec fn tile_index(nodes: Seq<NodeView>, position: Position) -> Option<usize> {
    if exists|i: int| is_tile_at(nodes, i, position) {
        Some((choose|i: int| is_tile_at(nodes, i, position)) as usize)
    } else {
        None
    }
}

/// No two tiles share a zone and coordinates.
pub open spec fn tiles_unique(nodes: Seq<NodeView>) -> bool {
    forall|i: int, j: int, position: Position|
        #![trigger is_tile_at(nodes, i, position), is_tile_at(nodes, j, position)]
        is_tile_at(nodes, i, position) && is_tile_at(nodes, j, position) ==> i == j
}

/// Every owned node caches the position of its owner, hence that of the tile
/// that contains it.
pub open spec fn positions_ok(nodes: Seq<NodeView>) -> bool {
    forall|i: int|
        #![trigger nodes[i].parent]
        0 <= i < nodes.len() ==> (nodes[i].parent matches Some(p) ==> nodes[i].position
            == nodes[p as int].position)
}

/// Every transition belongs to a tile: it has an owner, which by
/// [`may_contain`] is the tile that it leads away from.
pub open spec fn transitions_anchored(nodes: Seq<NodeView>) -> bool {
    forall|i: int|
        #![trigger nodes[i].body]
        0 <= i < nodes.len() && nodes[i].body is Transition ==> nodes[i].parent is Some
}

/// The invariant of the world.
pub open spec fn well_formed(nodes: Seq<NodeView>) -> bool {
    &&& links_ok(nodes)
    &&& tiles_unique(nodes)
    &&& positions_ok(nodes)
    &&& transitions_anchored(nodes)
}

/// The node reached from `i` by going from owned to owner `steps` times,
/// or as often as there is an owner if that is less.
pub open spec fn ancestor(nodes: Seq<NodeView>, i: int, steps: nat) -> int
    decreases steps,
{
    if steps == 0 {
        i
    } else {
        match nodes[i].parent {
            Some(p) => ancestor(nodes, p as int, (steps - 1) as nat),
            None => i,
        }
    }
}

/// Containment is a forest: going from owned to owner, every node reaches
/// within three steps a node that nothing owns.
pub proof fn lemma_containment_is_a_forest(nodes: Seq<NodeView>, i: int)
    requires
        links_ok(nodes),
        0 <= i < nodes.len(),
    ensures
        0 <= ancestor(nodes, i, 3) < nodes.len(),
        nodes[ancestor(nodes, i, 3)].parent is None,
{
    reveal_with_fuel(ancestor, 4);
    if let Some(p) = nodes[i].parent {
        lemma_owner_ranks_higher(nodes[p as int].body.kind(), nodes[i].body.kind());
        if let Some(q) = nodes[p as int].parent {
            lemma_owner_ranks_higher(nodes[q as int].body.kind(), nodes[p as int].body.kind());
            if let Some(r) = nodes[q as int].parent {
                lemma_owner_ranks_higher(nodes[r as int].body.kind(), nodes[q as int].body.kind());
                if let Some(t) = nodes[r as int].parent {
                    lemma_owner_ranks_higher(
                        nodes[t as int].body.kind(),
                        nodes[r as int].body.kind(),
                    );
                }
            }
        }
    }
}

/// The cached position of a node is that of every node that contains it,
/// hence that of the tile on which it lies, if it lies on one.
pub proof fn lemma_position_is_that_of_the_container(nodes: Seq<NodeView>, i: int, steps: nat)
    requires
        links_ok(nodes),
        positions_ok(nodes),
        0 <= i < nodes.len(),
    ensures
        0 <= ancestor(nodes, i, steps) < nodes.len(),
        nodes[i].position == nodes[ancestor(nodes, i, steps)].position,
    decreases steps,
{
    if steps > 0 {
        if let Some(p) = nodes[i].parent {
            lemma_position_is_that_of_the_container(nodes, p as int, (steps - 1) as nat);
        }
    }
}

/// The world with one more node: `body`, owned by `parent` if there is one
/// and then at the owner's position, else on its own at `position`.
pub open spec fn spawned(
    nodes: Seq<NodeView>,
    body: BodyView,
    parent: Option<usize>,
    position: Position,
) -> Seq<NodeView> {
    let id = nodes.len() as usize;
    Seq::new(
        nodes.len() + 1,
        |i: int|
            if i < nodes.len() {
                NodeView {
                    children: if parent == Some(i as usize) {
                        nodes[i].children.push(id)
                    } else {
                        nodes[i].children
                    },
                    ..nodes[i]
                }
            } else {
                NodeView {
                    parent,
                    children: Seq::empty(),
                    position: match parent {
                        Some(p) => nodes[p as int].position,
                        None => position,
                    },
                    body,
                }
            },
    )
}

/// Whether a node can be added: its owner must exist and be of a kind that
/// may own it, a transition needs an owner, and a tile needs a place where
/// no tile is yet.
pub open spec fn can_spawn(
    nodes: Seq<NodeView>,
    body: BodyView,
    parent: Option<usize>,
    position: Position,
) -> bool {
    &&& nodes.len() < usize::MAX
    &&& match parent {
        Some(p) => p < nodes.len() && may_contain(nodes[p as int].body.kind(), body.kind()),
        None => !(body is Transition) && (body is Tile ==> forall|i: int|
            !is_tile_at(nodes, i, position)),
    }
}

proof fn lemma_spawn_links(
    nodes: Seq<NodeView>,
    body: BodyView,
    parent: Option<usize>,
    position: Position,
)
    requires
        links_ok(nodes),
        can_spawn(nodes, body, parent, position),
    ensures
        links_ok(spawned(nodes, body, parent, position)),
{
    let after = spawned(nodes, body, parent, position);
    let id = nodes.len() as usize;
    assert forall|i: int| #![trigger after[i].parent] 0 <= i < after.len() implies (
    after[i].parent matches Some(p) ==> {
        &&& p < after.len()
        &&& may_contain(after[p as int].body.kind(), after[i].body.kind())
        &&& after[p as int].children.contains(i as usize)
    }) by {
        if let Some(p) = after[i].parent {
            if i < nodes.len() {
                assert(nodes[i].parent == Some(p));
                let k = choose|k: int|
                    0 <= k < nodes[p as int].children.len() && nodes[p as int].children[k] == i;
                assert(after[p as int].children[k] == i);
            } else {
                assert(after[p as int].children[nodes[p as int].children.len() as int] == id);
            }
        }
    }
    assert forall|p: int, k: int|
        #![trigger after[p].children[k]]
        0 <= p < after.len() && 0 <= k < after[p].children.len() implies {
        &&& after[p].children[k] < after.len()
        &&& after[after[p].children[k] as int].parent == Some(p as usize)
    } by {
        if k < nodes[p].children.len() {
            assert(after[p].children[k] == nodes[p].children[k]);
        }
    }
    assert forall|p: int| #![trigger after[p].children] 0 <= p < after.len() implies after[
        p
    ].children.no_duplicates() by {
        if p < nodes.len() {
            assert(nodes[p].children.no_duplicates());
            if parent == Some(p as usize) {
                assert forall|k: int| 0 <= k < nodes[p].children.len() implies nodes[p].children[k]
                    != id by {}
            }
        }
    }
}

proof fn lemma_spawn_places(
    nodes: Seq<NodeView>,
    body: BodyView,
    parent: Option<usize>,
    position: Position,
)
    requires
        well_formed(nodes),
        can_spawn(nodes, body, parent, position),
    ensures
        positions_ok(spawned(nodes, body, parent, position)),
        tiles_unique(spawned(nodes, body, parent, position)),
        transitions_anchored(spawned(nodes, body, parent, position)),
{
    let after = spawned(nodes, body, parent, position);
    assert forall|i: int|
        #![trigger after[i].body]
        0 <= i < after.len() && after[i].body is Transition implies after[i].parent is Some by {
        if i < nodes.len() {
            assert(after[i].body == nodes[i].body);
        }
    }
    assert forall|i: int| #![trigger after[i].parent] 0 <= i < after.len() implies (
    after[i].parent matches Some(p) ==> after[i].position == after[p as int].position) by {
        if i < nodes.len() {
            assert(after[i].parent == nodes[i].parent);
        }
    }
    assert forall|i: int, j: int, at: Position|
        #![trigger is_tile_at(after, i, at), is_tile_at(after, j, at)]
        is_tile_at(after, i, at) && is_tile_at(after, j, at) implies i == j by {
        if i < nodes.len() {
            assert(is_tile_at(nodes, i, at));
        }
        if j < nodes.len() {
            assert(is_tile_at(nodes, j, at));
        }
    }
}

/// Adding a node keeps the world well formed.
pub proof fn lemma_spawn_preserves(
    nodes: Seq<NodeView>,
    body: BodyView,
    parent: Option<usize>,
    position: Position,
)
    requires
        well_formed(nodes),
        can_spawn(nodes, body, parent, position),
    ensures
        well_formed(spawned(nodes, body, parent, position)),
{
    lemma_spawn_links(nodes, body, parent, position);
    lemma_spawn_places(nodes, body, parent, position);
}

/// Whether node `i` is `root`, a child of `root` or a grandchild of `root`.
/// Below anything but a tile this is the whole subtree.
pub open spec fn under(nodes: Seq<NodeView>, i: int, root: int) -> bool {
    ||| i == root
    ||| nodes[i].parent == Some(root as usize)
    ||| (nodes[i].parent matches Some(p) && p < nodes.len() && nodes[p as int].parent == Some(
        root as usize,
    ))
}

/// `s` without `v`.
pub open spec fn without(s: Seq<usize>, v: usize) -> Seq<usize> {
    if s.contains(v) {
        s.remove(s.index_of(v))
    } else {
        s
    }
}

/// The forest after `child` left its owner, if it had one, and joined
/// `owner`, if one is given, as its last child. Positions are as before.
pub open spec fn relinked(nodes: Seq<NodeView>, child: int, owner: Option<usize>) -> Seq<
    NodeView,
> {
    Seq::new(
        nodes.len(),
        |i: int|
            NodeView {
                parent: if i == child {
                    owner
                } else {
                    nodes[i].parent
                },
                children: if owner == Some(i as usize) {
                    nodes[i].children.push(child as usize)
                } else if nodes[child].parent == Some(i as usize) {
                    without(nodes[i].children, child as usize)
                } else {
                    nodes[i].children
                },
                ..nodes[i]
            },
    )
}

/// The forest with `root` and what lies under it placed at `position`.
pub open spec fn repositioned(nodes: Seq<NodeView>, root: int, position: Position) -> Seq<
    NodeView,
> {
    Seq::new(
        nodes.len(),
        |i: int|
            NodeView {
                position: if under(nodes, i, root) {
                    position
                } else {
                    nodes[i].position
                },
                ..nodes[i]
            },
    )
}

/// The forest after `child`, with all it carries, moved under `owner`, or
/// out of the forest's tiles where no owner is given, and to `position`.
pub open spec fn moved(
    nodes: Seq<NodeView>,
    child: int,
    owner: Option<usize>,
    position: Position,
) -> Seq<NodeView> {
    repositioned(relinked(nodes, child, owner), child, position)
}

/// The forest after `child` became the last child of `owner`: it leaves its
/// former owner in the same step, and it and all it carries take the
/// position of `owner`. Nothing changes where `owner` owns `child` already.
pub open spec fn reparented(nodes: Seq<NodeView>, child: int, owner: int) -> Seq<NodeView> {
    if nodes[child].parent == Some(owner as usize) {
        nodes
    } else {
        moved(nodes, child, Some(owner as usize), nodes[owner].position)
    }
}

/// The forest after `child` left its owner for a place of its own.
pub open spec fn displaced(nodes: Seq<NodeView>, child: int, position: Position) -> Seq<
    NodeView,
> {
    moved(nodes, child, None, position)
}

/// Whether `child` can move under `owner`, or to a place of its own: tiles
/// stay where they are, a transition stays with some tile, and an owner
/// must be of a kind that may own `child` and must not own it yet.
pub open spec fn can_move(nodes: Seq<NodeView>, child: int, owner: Option<usize>) -> bool {
    &&& 0 <= child < nodes.len()
    &&& !(nodes[child].body is Tile)
    &&& match owner {
        Some(o) => {
            &&& o < nodes.len()
            &&& may_contain(nodes[o as int].body.kind(), nodes[child].body.kind())
            &&& nodes[child].parent != owner
        },
        None => !(nodes[child].body is Transition),
    }
}

/// Removing a listed value from a list without repetitions removes exactly
/// that value and keeps the rest in order.
pub proof fn lemma_without(s: Seq<usize>, v: usize)
    requires
        s.no_duplicates(),
        s.contains(v),
    ensures
        without(s, v).no_duplicates(),
        without(s, v).len() == s.len() - 1,
        !without(s, v).contains(v),
        forall|x: usize| x != v && s.contains(x) ==> without(s, v).contains(x),
        forall|k: int|
            0 <= k < without(s, v).len() ==> s.contains(#[trigger] without(s, v)[k]),
{
    let at = s.index_of(v);
    let w = s.remove(at);
    assert forall|x: usize| x != v && s.contains(x) implies w.contains(x) by {
        let k = s.index_of(x);
        if k < at {
            assert(w[k] == x);
        } else {
            assert(w[k - 1] == x);
        }
    }
    assert forall|k: int| 0 <= k < w.len() implies s.contains(#[trigger] w[k]) by {
        if k < at {
            assert(s[k] == w[k]);
        } else {
            assert(s[k + 1] == w[k]);
        }
    }
}

/// Moving a node keeps every link of the forest sound.
pub proof fn lemma_relinked_links(nodes: Seq<NodeView>, child: int, owner: Option<usize>)
    requires
        links_ok(nodes),
        can_move(nodes, child, owner),
    ensures
        links_ok(relinked(nodes, child, owner)),
{
    let after = relinked(nodes, child, owner);
    let c = child as usize;
    let former = nodes[child].parent;
    if let Some(f) = former {
        lemma_without(nodes[f as int].children, c);
    }
    if let Some(o) = owner {
        lemma_owner_ranks_higher(nodes[o as int].body.kind(), nodes[child].body.kind());
        assert(!nodes[o as int].children.contains(c)) by {
            if nodes[o as int].children.contains(c) {
                let k = nodes[o as int].children.index_of(c);
                assert(nodes[nodes[o as int].children[k] as int].parent == owner);
            }
        }
    }
    assert forall|i: int| #![trigger after[i].parent] 0 <= i < after.len() implies (
    after[i].parent matches Some(p) ==> {
        &&& p < after.len()
        &&& may_contain(after[p as int].body.kind(), after[i].body.kind())
        &&& after[p as int].children.contains(i as usize)
    }) by {
        if let Some(p) = after[i].parent {
            if i == child {
                assert(after[p as int].children.last() == c);
            } else {
                assert(nodes[i].parent == Some(p));
                let k = nodes[p as int].children.index_of(i as usize);
                if owner == Some(p) {
                    assert(after[p as int].children[k] == i);
                }
            }
        }
    }
    assert forall|p: int, k: int|
        #![trigger after[p].children[k]]
        0 <= p < after.len() && 0 <= k < after[p].children.len() implies {
        &&& after[p].children[k] < after.len()
        &&& after[after[p].children[k] as int].parent == Some(p as usize)
    } by {
        let x = after[p].children[k];
        if owner == Some(p as usize) {
            if k < nodes[p].children.len() {
                assert(x == nodes[p].children[k]);
            }
        } else if former == Some(p as usize) {
            assert(nodes[p].children.contains(x));
            let j = nodes[p].children.index_of(x);
            assert(nodes[p].children[j] == x);
        } else {
            assert(x == nodes[p].children[k]);
        }
    }
    assert forall|p: int| #![trigger after[p].children] 0 <= p < after.len() implies after[
        p
    ].children.no_duplicates() by {
        assert(nodes[p].children.no_duplicates());
    }
}

/// Placing a subtree changes no link.
pub proof fn lemma_repositioned_links(nodes: Seq<NodeView>, root: int, position: Position)
    requires
        links_ok(nodes),
    ensures
        links_ok(repositioned(nodes, root, position)),
{
    let after = repositioned(nodes, root, position);
    assert forall|i: int| #![trigger after[i].parent] 0 <= i < after.len() implies (
    after[i].parent matches Some(p) ==> {
        &&& p < after.len()
        &&& may_contain(after[p as int].body.kind(), after[i].body.kind())
        &&& after[p as int].children.contains(i as usize)
    }) by {
        assert(after[i].parent == nodes[i].parent);
    }
    assert forall|p: int, k: int|
        #![trigger after[p].children[k]]
        0 <= p < after.len() && 0 <= k < after[p].children.len() implies {
        &&& after[p].children[k] < after.len()
        &&& after[after[p].children[k] as int].parent == Some(p as usize)
    } by {
        assert(after[p].children[k] == nodes[p].children[k]);
    }
    assert forall|p: int| #![trigger after[p].children] 0 <= p < after.len() implies after[
        p
    ].children.no_duplicates() by {
        assert(nodes[p].children.no_duplicates());
    }
}

/// A move leaves every tile where it is, and what moves is what lay under
/// `child` before.
pub proof fn lemma_moved_tiles(
    nodes: Seq<NodeView>,
    child: int,
    owner: Option<usize>,
    position: Position,
)
    requires
        links_ok(nodes),
        can_move(nodes, child, owner),
    ensures
        forall|i: int, at: Position|
            is_tile_at(moved(nodes, child, owner, position), i, at) <==> is_tile_at(nodes, i, at),
        forall|i: int|
            0 <= i < nodes.len() ==> (under(relinked(nodes, child, owner), i, child) <==> under(
                nodes,
                i,
                child,
            )),
{
    let linked = relinked(nodes, child, owner);
    let after = moved(nodes, child, owner, position);
    assert forall|i: int| 0 <= i < nodes.len() implies (under(linked, i, child) <==> under(
        nodes,
        i,
        child,
    )) by {
        assert(linked[i].parent == if i == child {
            owner
        } else {
            nodes[i].parent
        });
        if let Some(p) = nodes[i].parent {
            assert(linked[p as int].parent == if p == child {
                owner
            } else {
                nodes[p as int].parent
            });
            lemma_owner_ranks_higher(nodes[p as int].body.kind(), nodes[i].body.kind());
        }
        if let Some(o) = owner {
            lemma_owner_ranks_higher(nodes[o as int].body.kind(), nodes[child].body.kind());
        }
    }
    assert forall|i: int, at: Position| is_tile_at(after, i, at) <==> is_tile_at(
        nodes,
        i,
        at,
    ) by {
        if 0 <= i < nodes.len() && nodes[i].body is Tile {
            assert(linked[i].parent == nodes[i].parent);
            if let Some(p) = nodes[i].parent {
                lemma_owner_ranks_higher(nodes[p as int].body.kind(), nodes[i].body.kind());
            }
        }
    }
}

/// A move keeps the world well formed.
pub proof fn lemma_moved_preserves(
    nodes: Seq<NodeView>,
    child: int,
    owner: Option<usize>,
    position: Position,
)
    requires
        well_formed(nodes),
        can_move(nodes, child, owner),
        owner matches Some(o) ==> position == nodes[o as int].position,
    ensures
        well_formed(moved(nodes, child, owner, position)),
{
    let linked = relinked(nodes, child, owner);
    let after = moved(nodes, child, owner, position);
    lemma_relinked_links(nodes, child, owner);
    lemma_repositioned_links(linked, child, position);
    lemma_moved_tiles(nodes, child, owner, position);
    assert forall|i: int| #![trigger after[i].parent] 0 <= i < after.len() implies (
    after[i].parent matches Some(p) ==> after[i].position == after[p as int].position) by {
        if let Some(p) = after[i].parent {
            let q = p as int;
            assert(linked[i].parent == Some(p));
            assert(linked[q].parent == if q == child {
                owner
            } else {
                nodes[q].parent
            });
            lemma_owner_ranks_higher(linked[q].body.kind(), linked[i].body.kind());
            if let Some(g) = linked[q].parent {
                lemma_owner_ranks_higher(linked[g as int].body.kind(), linked[q].body.kind());
                assert(linked[g as int].parent == if g == child {
                    owner
                } else {
                    nodes[g as int].parent
                });
                if let Some(h) = linked[g as int].parent {
                    lemma_owner_ranks_higher(
                        linked[h as int].body.kind(),
                        linked[g as int].body.kind(),
                    );
                }
            }
            if i != child {
                assert(nodes[i].parent == Some(p));
            }
        }
    }
    assert forall|i: int, j: int, at: Position|
        #![trigger is_tile_at(after, i, at), is_tile_at(after, j, at)]
        is_tile_at(after, i, at) && is_tile_at(after, j, at) implies i == j by {
        assert(is_tile_at(nodes, i, at) && is_tile_at(nodes, j, at));
    }
    assert forall|i: int|
        #![trigger after[i].body]
        0 <= i < after.len() && after[i].body is Transition implies after[i].parent is Some by {
        assert(linked[i].parent == if i == child {
            owner
        } else {
            nodes[i].parent
        });
        assert(nodes[i].body is Transition);
    }
}

/// One node of the arena.
struct Node {
    parent: Option<usize>,
    children: Vec<usize>,
    position: Position,
    body: Body,
}

impl View for Node {
    type V = NodeView;

    closed spec fn view(&self) -> NodeView {
        NodeView {
            parent: self.parent,
            children: self.children@,
            position: self.position,
            body: self.body@,
        }
    }
}

/// The number under which the tile at `position` is filed.
spec fn key_of(position: Position) -> int {
    let zone: int = match position.zone {
        Zone::Void => 0,
        Zone::Movement => 1,
    };
    ((zone * 0x1_0000_0000 + (position.coords.x + 0x8000_0000)) * 0x1_0000_0000 + (
    position.coords.y + 0x8000_0000)) * 0x1_0000_0000 + (position.coords.z + 0x8000_0000)
}

proof fn lemma_key_of_is_injective(a: Position, b: Position)
    requires
        key_of(a) == key_of(b),
    ensures
        a == b,
{
}

fn key(position: Position) -> (k: u128)
    ensures
        k == key_of(position),
{
    let zone: u128 = match position.zone {
        Zone::Void => 0,
        Zone::Movement => 1,
    };
    let x: u128 = (position.coords.x as i64 + 0x8000_0000) as u128;
    let y: u128 = (position.coords.y as i64 + 0x8000_0000) as u128;
    let z: u128 = (position.coords.z as i64 + 0x8000_0000) as u128;
    ((zone * 0x1_0000_0000 + x) * 0x1_0000_0000 + y) * 0x1_0000_0000 + z
}

/// The spatial graph and the containment forest.
pub struct World {
    nodes: Vec<Node>,
    tiles: HashMap<u128, usize>,
}

impl View for World {
    type V = Seq<NodeView>;

    closed spec fn view(&self) -> Seq<NodeView> {
        Seq::new(self.nodes@.len(), |i: int| self.nodes@[i]@)
    }
}

impl World {
    /// The tile index files every tile under its key, and nothing else.
    pub closed spec fn indexed(&self) -> bool {
        &&& forall|k: u128| #[trigger]
            self.tiles@.contains_key(k) ==> {
                let filed = self.tiles@[k] as int;
                is_tile_at(self@, filed, self@[filed].position) && key_of(self@[filed].position)
                    == k
            }
        &&& forall|i: int|
            #![trigger self@[i]]
            0 <= i < self@.len() && self@[i].body is Tile ==> self.tiles@.contains_key(
                key_of(self@[i].position) as u128,
            ) && self.tiles@[key_of(self@[i].position) as u128] == i
    }

    /// The invariant: the forest is well formed and every tile can be found.
    pub open spec fn wf(&self) -> bool {
        &&& well_formed(self@)
        &&& self.indexed()
    }

    /// A world without nodes.
    pub fn new() -> (world: World)
        ensures
            world.wf(),
            world@ == Seq::<NodeView>::empty(),
    {
        let world = World { nodes: Vec::new(), tiles: HashMap::new() };
        assert(world@ =~= Seq::<NodeView>::empty());
        world
    }

    /// The number of nodes.
    pub fn len(&self) -> (n: usize)
        ensures
            n == self@.len(),
    {
        self.nodes.len()
    }

    /// The owner of a node.
    pub fn parent(&self, id: usize) -> (r: Option<usize>)
        requires
            id < self@.len(),
        ensures
            r == self@[id as int].parent,
    {
        self.nodes[id].parent
    }

    /// The nodes that a node owns, in the order in which they arrived.
    pub fn children(&self, id: usize) -> (r: &Vec<usize>)
        requires
            id < self@.len(),
        ensures
            r@ == self@[id as int].children,
    {
        &self.nodes[id].children
    }

    /// The cached position of a node.
    pub fn position(&self, id: usize) -> (r: Position)
        requires
            id < self@.len(),
        ensures
            r == self@[id as int].position,
    {
        self.nodes[id].position
    }

    /// What a node is.
    pub fn body(&self, id: usize) -> (r: &Body)
        requires
            id < self@.len(),
        ensures
            r@ == self@[id as int].body,
    {
        &self.nodes[id].body
    }

    /// The tile at `position`, if there is one.
    pub fn tile_at(&self, position: Position) -> (r: Option<usize>)
        requires
            self.wf(),
        ensures
            r == tile_index(self@, position),
            match r {
                Some(tile) => is_tile_at(self@, tile as int, position),
                None => forall|i: int| !is_tile_at(self@, i, position),
            },
    {
        let k = key(position);
        match self.tiles.get(&k) {
            Some(tile) => {
                proof {
                    lemma_key_of_is_injective(self@[*tile as int].position, position);
                }
                Some(*tile)
            },
            None => {
                assert forall|i: int| !is_tile_at(self@, i, position) by {}
                None
            },
        }
    }
}

impl World {
    /// Adds a node and returns its number, which is the number of nodes
    /// before the call. A node with an owner is appended to the owner's
    /// children and placed where the owner is; one without is placed at
    /// `position`. Nothing is added, and `None` returned, where the owner
    /// does not exist or may not own such a node, where a transition has no
    /// owner, or where a tile is to be put on a place that has one.
    pub fn spawn(&mut self, body: Body, parent: Option<usize>, position: Position) -> (r: Option<
        usize,
    >)
        requires
            old(self).wf(),
        ensures
            final(self).wf(),
            can_spawn(old(self)@, body@, parent, position) ==> r == Some(old(self)@.len() as usize)
                && final(self)@ == spawned(old(self)@, body@, parent, position),
            !can_spawn(old(self)@, body@, parent, position) ==> r is None && final(self)@ == old(
                self,
            )@,
    {
        let id = self.nodes.len();
        if id == usize::MAX {
            return None;
        }
        let kind = body.kind();
        let place = match parent {
            Some(p) => {
                if p >= id || !allowed(self.nodes[p].body.kind(), kind) {
                    return None;
                }
                self.nodes[p].position
            },
            None => {
                if kind == Kind::Transition {
                    return None;
                }
                if kind == Kind::Tile && self.tile_at(position).is_some() {
                    return None;
                }
                position
            },
        };
        let ghost before = self@;
        let ghost filed = self.tiles@;
        let ghost after = spawned(before, body@, parent, position);
        self.nodes.push(Node { parent, children: Vec::new(), position: place, body });
        if let Some(p) = parent {
            self.nodes[p].children.push(id);
        }
        assert(self@ =~= after);
        if kind == Kind::Tile {
            let k = key(place);
            assert(!filed.contains_key(k)) by {
                if filed.contains_key(k) {
                    lemma_key_of_is_injective(before[filed[k] as int].position, place);
                    assert(is_tile_at(before, filed[k] as int, position));
                }
            }
            self.tiles.insert(k, id);
        }
        proof {
            lemma_spawn_preserves(before, body@, parent, position);
            assert forall|k: u128| #[trigger] self.tiles@.contains_key(k) implies is_tile_at(
                self@,
                self.tiles@[k] as int,
                self@[self.tiles@[k] as int].position,
            ) && key_of(self@[self.tiles@[k] as int].position) == k by {}
            assert forall|i: int|
                #![trigger self@[i]]
                0 <= i < self@.len() && self@[i].body is Tile implies self.tiles@.contains_key(
                key_of(self@[i].position) as u128,
            ) && self.tiles@[key_of(self@[i].position) as u128] == i by {
                if i < before.len() {
                    if kind == Kind::Tile {
                        if key_of(before[i].position) == key_of(place) {
                            lemma_key_of_is_injective(before[i].position, place);
                            assert(is_tile_at(before, i, position));
                        }
                    }
                }
            }
        }
        Some(id)
    }
}

/// Whether `i` is among the first `upto` entries of `list`.
spec fn listed(list: Seq<usize>, upto: int, i: int) -> bool {
    exists|j: int| 0 <= j < upto && #[trigger] list[j] == i
}

/// Whether `i` is `root`, one of its first `k` children or owned by one.
spec fn settled(nodes: Seq<NodeView>, root: int, k: int, i: int) -> bool {
    ||| i == root
    ||| listed(nodes[root].children, k, i)
    ||| (nodes[i].parent matches Some(p) && listed(nodes[root].children, k, p as int))
}

/// The place of `value` in `list`.
fn index_in(list: &Vec<usize>, value: usize) -> (k: usize)
    requires
        list@.contains(value),
        list@.no_duplicates(),
    ensures
        k < list@.len(),
        k == list@.index_of(value),
{
    let ghost at = list@.index_of(value);
    let n = list.len();
    let mut k: usize = 0;
    while list[k] != value
        invariant
            0 <= k <= at < n == list@.len(),
            list@[at] == value,
        decreases at - k,
    {
        k += 1;
    }
    k
}

impl World {
    /// Takes `child` from its owner's list, if it has an owner, and appends
    /// it to that of `owner`, if one is given.
    fn relink(&mut self, child: usize, owner: Option<usize>)
        requires
            links_ok(old(self)@),
            can_move(old(self)@, child as int, owner),
        ensures
            final(self)@ == relinked(old(self)@, child as int, owner),
            final(self).tiles@ == old(self).tiles@,
    {
        let ghost before = self@;
        if let Some(former) = self.nodes[child].parent {
            assert(before[child as int].parent == Some(former));
            assert(before[former as int].children.no_duplicates());
            let k = index_in(&self.nodes[former].children, child);
            self.nodes[former].children.remove(k);
        }
        self.nodes[child].parent = owner;
        if let Some(o) = owner {
            self.nodes[o].children.push(child);
        }
        assert(self@ =~= relinked(before, child as int, owner));
    }

    /// Writes `position` into `root`, its children and their children.
    fn settle(&mut self, root: usize, position: Position)
        requires
            links_ok(old(self)@),
            root < old(self)@.len(),
        ensures
            final(self)@ == repositioned(old(self)@, root as int, position),
            final(self).tiles@ == old(self).tiles@,
    {
        let ghost before = self@;
        self.nodes[root].position = position;
        let n = self.nodes[root].children.len();
        let mut k: usize = 0;
        while k < n
            invariant
                links_ok(before),
                root < before.len() == self@.len(),
                n == before[root as int].children.len(),
                k <= n,
                self.tiles@ == old(self).tiles@,
                forall|i: int|
                    0 <= i < before.len() ==> #[trigger] self@[i] == (NodeView {
                        position: if settled(before, root as int, k as int, i) {
                            position
                        } else {
                            before[i].position
                        },
                        ..before[i]
                    }),
            decreases n - k,
        {
            assert(self@[root as int].children == before[root as int].children);
            let c = self.nodes[root].children[k];
            assert(self@[c as int].children == before[c as int].children);
            let ghost mid = self@;
            self.nodes[c].position = position;
            assert forall|i: int| 0 <= i < before.len() implies #[trigger] self@[i] == (if i == c {
                NodeView { position, ..mid[i] }
            } else {
                mid[i]
            }) by {}
            let m = self.nodes[c].children.len();
            let mut j: usize = 0;
            while j < m
                invariant
                    links_ok(before),
                    root < before.len() == self@.len(),
                    k < n == before[root as int].children.len(),
                    c == before[root as int].children[k as int],
                    c < before.len(),
                    m == before[c as int].children.len(),
                    j <= m,
                    self.tiles@ == old(self).tiles@,
                    forall|i: int|
                        0 <= i < before.len() ==> #[trigger] self@[i] == (NodeView {
                            position: if settled(before, root as int, k as int, i) || i == c
                                || listed(before[c as int].children, j as int, i) {
                                position
                            } else {
                                before[i].position
                            },
                            ..before[i]
                        }),
                decreases m - j,
            {
                assert(self@[c as int].children == before[c as int].children);
                let g = self.nodes[c].children[j];
                let ghost mid = self@;
                self.nodes[g].position = position;
                assert forall|i: int| 0 <= i < before.len() implies #[trigger] self@[i] == (if i
                    == g {
                    NodeView { position, ..mid[i] }
                } else {
                    mid[i]
                }) by {}
                j += 1;
                assert forall|i: int| 0 <= i < before.len() implies #[trigger] self@[i] == (
                NodeView {
                    position: if settled(before, root as int, k as int, i) || i == c || listed(
                        before[c as int].children,
                        j as int,
                        i,
                    ) {
                        position
                    } else {
                        before[i].position
                    },
                    ..before[i]
                }) by {
                    if i == g {
                        assert(before[c as int].children[j - 1] == i);
                    }
                    if listed(before[c as int].children, j as int, i) && i != g {
                        let w = choose|w: int|
                            0 <= w < j && #[trigger] before[c as int].children[w] == i;
                        assert(w < j - 1);
                    }
                }
            }
            k += 1;
            assert forall|i: int| 0 <= i < before.len() implies #[trigger] self@[i] == (NodeView {
                position: if settled(before, root as int, k as int, i) {
                    position
                } else {
                    before[i].position
                },
                ..before[i]
            }) by {
                let kids = before[root as int].children;
                let was = settled(before, root as int, k - 1, i) || i == c || listed(
                    before[c as int].children,
                    m as int,
                    i,
                );
                if was {
                    if i == c {
                        assert(kids[k - 1] == i);
                    } else if listed(before[c as int].children, m as int, i) {
                        assert(before[i].parent == Some(c));
                        assert(kids[k - 1] == c);
                    }
                    assert(settled(before, root as int, k as int, i));
                } else if settled(before, root as int, k as int, i) {
                    if listed(kids, k as int, i) {
                        let w = choose|w: int| 0 <= w < k && #[trigger] kids[w] == i;
                        assert(w < k - 1);
                    } else {
                        let p = before[i].parent->0;
                        let w = choose|w: int| 0 <= w < k && #[trigger] kids[w] == p;
                        if w == k - 1 {
                            let at = before[c as int].children.index_of(i as usize);
                            assert(before[c as int].children[at] == i);
                        }
                    }
                }
            }
        }
        assert forall|i: int| 0 <= i < before.len() implies (settled(
            before,
            root as int,
            n as int,
            i,
        ) <==> under(before, i, root as int)) by {
            let kids = before[root as int].children;
            if let Some(p) = before[i].parent {
                if p == root {
                    let at = kids.index_of(i as usize);
                    assert(kids[at] == i);
                }
                if p < before.len() && before[p as int].parent == Some(root) {
                    let at = kids.index_of(p);
                    assert(kids[at] == p);
                }
            }
        }
        assert(self@ =~= repositioned(before, root as int, position));
    }
}

/// Whether `child` may become a child of `owner`.
pub open spec fn can_reparent(nodes: Seq<NodeView>, child: int, owner: int) -> bool {
    &&& 0 <= child < nodes.len()
    &&& 0 <= owner < nodes.len()
    &&& may_contain(nodes[owner].body.kind(), nodes[child].body.kind())
}

/// Whether `child` can be taken out of the tiles of the forest: it is
/// neither a tile nor a transition.
pub open spec fn can_displace(nodes: Seq<NodeView>, child: int) -> bool {
    0 <= child < nodes.len() && !(nodes[child].body is Tile) && !(nodes[child].body
        is Transition)
}

impl World {
    fn relocate(&mut self, child: usize, owner: Option<usize>, position: Position)
        requires
            old(self).wf(),
            can_move(old(self)@, child as int, owner),
            owner matches Some(o) ==> position == old(self)@[o as int].position,
        ensures
            final(self).wf(),
            final(self)@ == moved(old(self)@, child as int, owner, position),
    {
        let ghost before = self@;
        self.relink(child, owner);
        proof {
            lemma_relinked_links(before, child as int, owner);
        }
        self.settle(child, position);
        proof {
            lemma_moved_preserves(before, child as int, owner, position);
            lemma_moved_tiles(before, child as int, owner, position);
            assert forall|k: u128| #[trigger] self.tiles@.contains_key(k) implies is_tile_at(
                self@,
                self.tiles@[k] as int,
                self@[self.tiles@[k] as int].position,
            ) && key_of(self@[self.tiles@[k] as int].position) == k by {
                let i = self.tiles@[k] as int;
                assert(is_tile_at(before, i, before[i].position));
                assert(is_tile_at(self@, i, before[i].position));
            }
            assert forall|i: int|
                #![trigger self@[i]]
                0 <= i < self@.len() && self@[i].body is Tile implies self.tiles@.contains_key(
                key_of(self@[i].position) as u128,
            ) && self.tiles@[key_of(self@[i].position) as u128] == i by {
                assert(is_tile_at(self@, i, self@[i].position));
                assert(is_tile_at(before, i, self@[i].position));
            }
        }
    }

    /// Makes `owner` the owner of `child`: in one step `child` leaves the
    /// list of its former owner, joins that of `owner` at the end, and takes
    /// the position of `owner`, with all that it carries. Where `owner` owns
    /// `child` already nothing changes. Returns whether `owner` may own
    /// `child`; if not, nothing changes either.
    pub fn reparent(&mut self, child: usize, owner: usize) -> (done: bool)
        requires
            old(self).wf(),
        ensures
            final(self).wf(),
            done == can_reparent(old(self)@, child as int, owner as int),
            final(self)@ == if done {
                reparented(old(self)@, child as int, owner as int)
            } else {
                old(self)@
            },
    {
        let n = self.nodes.len();
        if child >= n || owner >= n {
            return false;
        }
        if !allowed(self.nodes[owner].body.kind(), self.nodes[child].body.kind()) {
            return false;
        }
        if self.nodes[child].parent == Some(owner) {
            return true;
        }
        let position = self.nodes[owner].position;
        self.relocate(child, Some(owner), position);
        true
    }

    /// Takes `child` from its owner and places it, with all that it
    /// carries, at `position`, owned by nothing. Returns whether `child` is
    /// a node that can leave its place; if not, nothing changes.
    pub fn displace(&mut self, child: usize, position: Position) -> (done: bool)
        requires
            old(self).wf(),
        ensures
            final(self).wf(),
            done == can_displace(old(self)@, child as int),
            final(self)@ == if done {
                displaced(old(self)@, child as int, position)
            } else {
                old(self)@
            },
    {
        if child >= self.nodes.len() {
            return false;
        }
        let kind = self.nodes[child].body.kind();
        if kind == Kind::Tile || kind == Kind::Transition {
            return false;
        }
        self.relocate(child, None, position);
        true
    }
}

/// Whether a node is the authenticated player behind the connection `from`.
pub open spec fn is_requester(node: NodeView, from: ClientId) -> bool {
    node.body matches BodyView::Player(player) && player.client.id == from && player.online
}

/// The player who sent a command: the first node, in order of creation,
/// that is the authenticated player of the connection `from`.
pub open spec fn requester(nodes: Seq<NodeView>, from: ClientId) -> Option<usize>
    decreases nodes.len(),
{
    if nodes.len() == 0 {
        None
    } else {
        match requester(nodes.drop_last(), from) {
            Some(i) => Some(i),
            None => if is_requester(nodes.last(), from) {
                Some((nodes.len() - 1) as usize)
            } else {
                None
            },
        }
    }
}

/// The requester is the first node that qualifies, and there is none only
/// where no node qualifies.
pub proof fn lemma_requester(nodes: Seq<NodeView>, from: ClientId)
    requires
        nodes.len() <= usize::MAX,
    ensures
        match requester(nodes, from) {
            Some(i) => i < nodes.len() && is_requester(nodes[i as int], from) && forall|j: int|
                0 <= j < i ==> !is_requester(#[trigger] nodes[j], from),
            None => forall|j: int| 0 <= j < nodes.len() ==> !is_requester(#[trigger] nodes[j], from),
        },
    decreases nodes.len(),
{
    if nodes.len() > 0 {
        let front = nodes.drop_last();
        lemma_requester(front, from);
        assert forall|j: int| 0 <= j < front.len() implies front[j] == nodes[j] by {}
        match requester(front, from) {
            Some(i) => {
                assert forall|j: int| 0 <= j < i implies !is_requester(
                    #[trigger] nodes[j],
                    from,
                ) by {
                    assert(front[j] == nodes[j]);
                }
            },
            None => {
                assert forall|j: int| 0 <= j < front.len() implies !is_requester(
                    #[trigger] nodes[j],
                    from,
                ) by {
                    assert(front[j] == nodes[j]);
                }
            },
        }
    }
}

impl World {
    /// The player who sent a command over the connection `from`.
    pub fn find_player(&self, from: ClientId) -> (r: Option<usize>)
        requires
            self.wf(),
        ensures
            r == requester(self@, from),
    {
        let n = self.nodes.len();
        let mut k: usize = 0;
        while k < n
            invariant
                k <= n == self@.len(),
                forall|j: int| 0 <= j < k ==> !is_requester(#[trigger] self@[j], from),
            decreases n - k,
        {
            if let Body::Player(player) = &self.nodes[k].body {
                if player.client.id == from && player.online {
                    proof {
                        lemma_requester(self@, from);
                        assert(is_requester(self@[k as int], from));
                        if let Some(i) = requester(self@, from) {
                            assert(!is_requester(self@[i as int], from) || i >= k);
                        }
                    }
                    return Some(k);
                }
            }
            assert(!is_requester(self@[k as int], from));
            k += 1;
        }
        proof {
            lemma_requester(self@, from);
            if let Some(i) = requester(self@, from) {
                assert(!is_requester(self@[i as int], from));
            }
        }
        None
    }
}

/// A move changes neither the number of nodes nor what any node is.
pub proof fn lemma_reparented_keeps_bodies(nodes: Seq<NodeView>, child: int, owner: int)
    ensures
        reparented(nodes, child, owner).len() == nodes.len(),
        forall|i: int|
            0 <= i < nodes.len() ==> (#[trigger] reparented(nodes, child, owner)[i]).body
                == nodes[i].body,
{
}

/// The forest with the player at node `id` marked as online or not.
pub open spec fn with_online(nodes: Seq<NodeView>, id: int, online: bool) -> Seq<NodeView> {
    match nodes[id].body {
        BodyView::Player(player) => nodes.update(
            id,
            NodeView { body: BodyView::Player(PlayerView { online, ..player }), ..nodes[id] },
        ),
        _ => nodes,
    }
}

/// Marking a player changes no link, no place and no tile.
pub proof fn lemma_with_online_preserves(nodes: Seq<NodeView>, id: int, online: bool)
    requires
        well_formed(nodes),
        0 <= id < nodes.len(),
    ensures
        well_formed(with_online(nodes, id, online)),
        with_online(nodes, id, online).len() == nodes.len(),
        forall|i: int, at: Position|
            is_tile_at(with_online(nodes, id, online), i, at) <==> is_tile_at(nodes, i, at),
        forall|i: int|
            0 <= i < nodes.len() ==> (#[trigger] with_online(nodes, id, online)[i]).position
                == nodes[i].position,
{
    let after = with_online(nodes, id, online);
    assert forall|i: int| 0 <= i < nodes.len() implies (#[trigger] after[i]).parent
        == nodes[i].parent && after[i].children == nodes[i].children && after[i].position
        == nodes[i].position && after[i].body.kind() == nodes[i].body.kind() by {}
    assert forall|i: int| #![trigger after[i].parent] 0 <= i < after.len() implies (
    after[i].parent matches Some(p) ==> {
        &&& p < after.len()
        &&& may_contain(after[p as int].body.kind(), after[i].body.kind())
        &&& after[p as int].children.contains(i as usize)
        &&& after[i].position == after[p as int].position
    }) by {
        assert(after[i].parent == nodes[i].parent);
    }
    assert forall|p: int, k: int|
        #![trigger after[p].children[k]]
        0 <= p < after.len() && 0 <= k < after[p].children.len() implies {
        &&& after[p].children[k] < after.len()
        &&& after[after[p].children[k] as int].parent == Some(p as usize)
    } by {
        assert(after[p].children[k] == nodes[p].children[k]);
    }
    assert forall|p: int| #![trigger after[p].children] 0 <= p < after.len() implies after[
        p
    ].children.no_duplicates() by {
        assert(nodes[p].children.no_duplicates());
    }
    assert forall|i: int, at: Position| is_tile_at(after, i, at) <==> is_tile_at(
        nodes,
        i,
        at,
    ) by {
        if 0 <= i < nodes.len() {
            assert(after[i].body.kind() == nodes[i].body.kind());
        }
    }
    assert forall|i: int, j: int, at: Position|
        #![trigger is_tile_at(after, i, at), is_tile_at(after, j, at)]
        is_tile_at(after, i, at) && is_tile_at(after, j, at) implies i == j by {
        assert(is_tile_at(nodes, i, at) && is_tile_at(nodes, j, at));
    }
    assert forall|i: int|
        #![trigger after[i].body]
        0 <= i < after.len() && after[i].body is Transition implies after[i].parent is Some by {
        assert(nodes[i].body is Transition);
    }
}

impl World {
    /// Marks the player at node `id` as online, once the connection is
    /// authenticated, or as offline. Returns whether `id` is a player; if
    /// not, nothing changes.
    pub fn set_online(&mut self, id: usize, online: bool) -> (done: bool)
        requires
            old(self).wf(),
        ensures
            final(self).wf(),
            done == (id < old(self)@.len() && old(self)@[id as int].body is Player),
            final(self)@ == if done {
                with_online(old(self)@, id as int, online)
            } else {
                old(self)@
            },
    {
        if id >= self.nodes.len() {
            return false;
        }
        if self.nodes[id].body.kind() != Kind::Player {
            return false;
        }
        let ghost before = self@;
        if let Body::Player(player) = &mut self.nodes[id].body {
            player.online = online;
        }
        assert(self@ =~= with_online(before, id as int, online));
        proof {
            lemma_with_online_preserves(before, id as int, online);
            assert forall|k: u128| #[trigger] self.tiles@.contains_key(k) implies is_tile_at(
                self@,
                self.tiles@[k] as int,
                self@[self.tiles@[k] as int].position,
            ) && key_of(self@[self.tiles@[k] as int].position) == k by {
                let i = self.tiles@[k] as int;
                assert(is_tile_at(before, i, before[i].position));
            }
            assert forall|i: int|
                #![trigger self@[i]]
                0 <= i < self@.len() && self@[i].body is Tile implies self.tiles@.contains_key(
                key_of(self@[i].position) as u128,
            ) && self.tiles@[key_of(self@[i].position) as u128] == i by {
                assert(is_tile_at(self@, i, self@[i].position));
            }
        }
        true
    }
}

} // verus!
