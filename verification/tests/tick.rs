use server::command::{CommandBus, Outbox, Reply};
use server::enter::enter;
use server::input::{parse, Matchers};
use server::items::take;
use server::look::look;
use server::movement::movement;
use server::player::{Character, CharacterConfig, Client, ClientId, TELEPORT};
use server::social::who;
use server::spatial::{Coords, Position, Zone};
use server::teleport::teleport;
use server::world::{Body, Item, Player, Sprite, Tile, Transition, World};

fn at(zone: Zone, x: i32, y: i32, z: i32) -> Position {
    Position { zone, coords: Coords { x, y, z } }
}

fn build_tile(world: &mut World, position: Position) -> usize {
    let tile = Tile {
        name: "Somewhere".to_string(),
        description: "A place.".to_string(),
        sprite: Sprite { character: "#".to_string() },
    };
    world.spawn(Body::Tile(tile), None, position).unwrap()
}

fn build_item(world: &mut World, owner: usize, name: &str, short: &str, takable: bool) -> usize {
    let item = Item {
        name: name.to_string(),
        short_name: short.to_string(),
        tags: vec!["Loot".to_string()],
        takable,
    };
    let position = world.position(owner);
    world.spawn(Body::Item(item), Some(owner), position).unwrap()
}

fn build_player(world: &mut World, tile: usize, id: u128, name: &str, role: i16) -> (Client, usize, usize) {
    let client = Client { id: ClientId(id), width: 80 };
    let character =
        Character { id: id as i64, name: name.to_string(), role, config: CharacterConfig { brief: false } };
    let body = Body::Player(Player { client, character, online: true });
    let position = world.position(tile);
    let player = world.spawn(body, Some(tile), position).unwrap();
    let inventory = world.spawn(Body::Inventory, Some(player), position).unwrap();
    (client, player, inventory)
}

fn run(world: &mut World, lines: &[(&Client, &str)]) -> Outbox {
    let matchers = Matchers::new().unwrap();
    let mut bus = CommandBus::new();
    let mut outbox = Outbox::new();
    for (client, line) in lines {
        parse(&matchers, client, line, &mut bus);
    }
    take(world, &bus, &mut outbox);
    movement(world, &bus, &mut outbox);
    enter(world, &bus, &mut outbox);
    teleport(world, &bus);
    look(world, &bus, &mut outbox);
    server::look::map(world, &bus, &mut outbox);
    who(world, &bus, &mut outbox);
    bus.clear();
    outbox
}

fn texts(outbox: &Outbox, to: ClientId) -> Vec<String> {
    let mut found = Vec::new();
    for i in 0..outbox.len() {
        let message = outbox.get(i);
        if message.to == to {
            if let Reply::Text(text) = &message.content {
                found.push(text.clone());
            }
        }
    }
    found
}

#[test]
fn two_players_share_a_tick() {
    let mut world = World::new();
    let glade = build_tile(&mut world, at(Zone::Void, 0, 0, 0));
    let brook = build_tile(&mut world, at(Zone::Void, 1, 0, 0));
    build_item(&mut world, glade, "Oak Branch", "branch", true);
    build_item(&mut world, glade, "boulder", "rock", false);
    let (ann, ann_node, ann_pack) = build_player(&mut world, glade, 1, "ann", 0);
    let (bob, bob_node, bob_pack) = build_player(&mut world, glade, 2, "bob", 0);

    let outbox = run(
        &mut world,
        &[(&ann, "take BRANCH"), (&bob, "get branch"), (&bob, "take rock"), (&ann, "e"), (&bob, "who"), (&ann, "hum")],
    );

    assert_eq!(texts(&outbox, ann.id), vec!["You take a Oak Branch."]);
    assert_eq!(
        texts(&outbox, bob.id),
        vec!["You don't see a branch here.", "You don't see a rock here.", "Online: ann, bob"]
    );
    assert_eq!(world.children(ann_pack).len(), 1);
    assert!(world.children(bob_pack).is_empty());
    assert_eq!(world.parent(ann_node), Some(brook));
    assert_eq!(world.parent(bob_node), Some(glade));
    assert_eq!(world.position(world.children(ann_pack)[0]), at(Zone::Void, 1, 0, 0));
}

#[test]
fn items_are_found_by_short_name_and_tag() {
    let mut world = World::new();
    let glade = build_tile(&mut world, at(Zone::Void, 0, 0, 0));
    let branch = build_item(&mut world, glade, "Oak Branch", "Branch", true);
    let coin = build_item(&mut world, glade, "coin", "c", true);
    let statue = build_item(&mut world, glade, "statue", "s", false);
    let (ann, _, pack) = build_player(&mut world, glade, 1, "ann", 0);

    let outbox = run(&mut world, &[(&ann, "take all loot")]);

    assert_eq!(texts(&outbox, ann.id), vec!["You take a Oak Branch and a coin."]);
    assert_eq!(world.children(pack), &vec![branch, coin]);
    assert_eq!(world.parent(statue), Some(glade));

    let outbox = run(&mut world, &[(&ann, "take oak"), (&ann, "take s"), (&ann, "take coin")]);
    assert_eq!(
        texts(&outbox, ann.id),
        vec!["You don't see a oak here.", "You don't see a s here.", "You don't see a coin here."]
    );
}

#[test]
fn only_the_first_match_is_taken_without_all() {
    let mut world = World::new();
    let glade = build_tile(&mut world, at(Zone::Void, 0, 0, 0));
    let first = build_item(&mut world, glade, "stick", "stick", true);
    let second = build_item(&mut world, glade, "stick", "stick", true);
    let (ann, _, pack) = build_player(&mut world, glade, 1, "ann", 0);

    run(&mut world, &[(&ann, "take stick")]);

    assert_eq!(world.children(pack), &vec![first]);
    assert_eq!(world.parent(second), Some(glade));
    assert_eq!(world.children(glade).len(), 2);
}

#[test]
fn a_player_without_tile_or_inventory_is_ignored() {
    let mut world = World::new();
    let glade = build_tile(&mut world, at(Zone::Void, 0, 0, 0));
    build_item(&mut world, glade, "stick", "stick", true);
    let bare = Client { id: ClientId(9), width: 80 };
    let character =
        Character { id: 9, name: "bare".to_string(), role: 0, config: CharacterConfig { brief: false } };
    world
        .spawn(Body::Player(Player { client: bare, character, online: true }), Some(glade), at(Zone::Void, 0, 0, 0))
        .unwrap();
    let (ann, ann_node, _) = build_player(&mut world, glade, 1, "ann", TELEPORT);

    let outbox = run(&mut world, &[(&bare, "take stick"), (&ann, "tp here (5 5 5)")]);
    assert_eq!(outbox.len(), 0);
    assert_eq!(world.parent(ann_node), None);

    let outbox = run(&mut world, &[(&ann, "take stick"), (&ann, "north"), (&ann, "enter"), (&ann, "look")]);
    assert_eq!(outbox.len(), 0);
    assert_eq!(world.children(glade).len(), 2);
}

#[test]
fn entering_and_looking() {
    let mut world = World::new();
    let glade = build_tile(&mut world, at(Zone::Void, 0, 0, 0));
    let cave = build_tile(&mut world, at(Zone::Movement, 3, 3, 3));
    let door = Transition { tags: vec!["cave".to_string()], zone: Zone::Movement, coords: Coords { x: 3, y: 3, z: 3 } };
    world.spawn(Body::Transition(door), Some(glade), at(Zone::Void, 0, 0, 0)).unwrap();
    let (ann, ann_node, _) = build_player(&mut world, glade, 1, "ann", 0);

    let outbox = run(&mut world, &[(&ann, "enter cave"), (&ann, "look")]);

    assert_eq!(world.parent(ann_node), Some(cave));
    assert_eq!(outbox.len(), 2);
    assert!(matches!(outbox.get(0).content, Reply::View { tile, brief: false } if tile == cave));
    assert!(matches!(outbox.get(1).content, Reply::View { tile, brief: false } if tile == cave));
}
