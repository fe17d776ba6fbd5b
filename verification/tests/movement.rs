use server::command::{Command, CommandBus, Outbox, ParsedCommand, Reply};
use server::input::{parse_movement, Matchers};
use server::movement::movement;
use server::player::{Character, CharacterConfig, Client, ClientId};
use server::spatial::{offset_for_direction, Coords, Position, Zone};
use server::world::{Body, Item, Player, Sprite, Tile, World};

fn at(x: i32, y: i32, z: i32) -> Position {
    Position { zone: Zone::Void, coords: Coords { x, y, z } }
}

fn build_tile(world: &mut World, position: Position) -> usize {
    let tile = Tile {
        name: "Somewhere".to_string(),
        description: "A place.".to_string(),
        sprite: Sprite { character: "#".to_string() },
    };
    world.spawn(Body::Tile(tile), None, position).unwrap()
}

fn build_player(world: &mut World, tile: usize, brief: bool) -> (Client, usize) {
    let client = Client { id: ClientId(3), width: 80 };
    let character =
        Character { id: 0, name: "player".to_string(), role: 0, config: CharacterConfig { brief } };
    let body = Body::Player(Player { client, character, online: true });
    let position = world.position(tile);
    (client, world.spawn(body, Some(tile), position).unwrap())
}

fn send_message(world: &mut World, client: &Client, line: &str) -> Outbox {
    let matchers = Matchers::new().unwrap();
    let mut bus = CommandBus::new();
    let mut outbox = Outbox::new();
    assert!(parse_movement(&matchers, client, line, &mut bus));
    movement(world, &bus, &mut outbox);
    outbox
}

fn get_message_content(outbox: &Outbox) -> String {
    assert_eq!(outbox.len(), 1);
    match &outbox.get(0).content {
        Reply::Text(text) => text.clone(),
        Reply::View { .. } => panic!("expected a text"),
    }
}

#[test]
fn move_around() {
    let mut world = World::new();
    let start = build_tile(&mut world, at(0, 0, 0));
    let destination = build_tile(&mut world, at(0, 1, 0));
    let (client, player) = build_player(&mut world, start, false);

    send_message(&mut world, &client, "south");

    assert_eq!(world.parent(player).unwrap(), destination);
}

#[test]
fn no_exit() {
    let mut world = World::new();
    let tile = build_tile(&mut world, at(0, 0, 0));
    let (client, _) = build_player(&mut world, tile, false);

    let outbox = send_message(&mut world, &client, "south");
    let content = get_message_content(&outbox);

    assert_eq!(content, "You can't go that way.");
}

#[test]
fn blocked_move_changes_nothing() {
    let mut world = World::new();
    let tile = build_tile(&mut world, at(0, 0, 0));
    build_tile(&mut world, at(0, 1, 0));
    let (client, player) = build_player(&mut world, tile, false);

    let outbox = send_message(&mut world, &client, "n");

    assert_eq!(get_message_content(&outbox), "You can't go that way.");
    assert_eq!(world.parent(player), Some(tile));
    assert_eq!(world.position(player), at(0, 0, 0));
    assert_eq!(world.children(tile), &vec![player]);
}

#[test]
fn moving_shows_the_destination_with_the_players_verbosity() {
    let mut world = World::new();
    let start = build_tile(&mut world, at(0, 0, 0));
    let destination = build_tile(&mut world, at(1, -1, 0));
    let (client, player) = build_player(&mut world, start, true);

    let outbox = send_message(&mut world, &client, "ne");

    assert_eq!(world.parent(player), Some(destination));
    assert_eq!(world.position(player), at(1, -1, 0));
    assert!(world.children(start).is_empty());
    assert_eq!(outbox.len(), 1);
    assert_eq!(outbox.get(0).to, client.id);
    match &outbox.get(0).content {
        Reply::View { tile, brief } => {
            assert_eq!(*tile, destination);
            assert!(*brief);
        }
        Reply::Text(text) => panic!("expected a view, got {}", text),
    }
}

#[test]
fn what_the_player_carries_moves_along() {
    let mut world = World::new();
    let start = build_tile(&mut world, at(0, 0, 0));
    let destination = build_tile(&mut world, at(0, 0, 1));
    let (client, player) = build_player(&mut world, start, false);
    let inventory = world.spawn(Body::Inventory, Some(player), at(0, 0, 0)).unwrap();
    let item = Item {
        name: "stick".to_string(),
        short_name: "stick".to_string(),
        tags: vec![],
        takable: true,
    };
    let stick = world.spawn(Body::Item(item), Some(inventory), at(0, 0, 0)).unwrap();

    send_message(&mut world, &client, "up");

    assert_eq!(world.parent(player), Some(destination));
    assert_eq!(world.position(player), at(0, 0, 1));
    assert_eq!(world.position(inventory), at(0, 0, 1));
    assert_eq!(world.position(stick), at(0, 0, 1));
    assert_eq!(world.parent(inventory), Some(player));
    assert_eq!(world.parent(stick), Some(inventory));
}

#[test]
fn commands_are_resolved_in_order_of_arrival() {
    let mut world = World::new();
    let start = build_tile(&mut world, at(0, 0, 0));
    build_tile(&mut world, at(1, 0, 0));
    let far = build_tile(&mut world, at(2, 0, 0));
    let (client, player) = build_player(&mut world, start, false);
    let matchers = Matchers::new().unwrap();
    let mut bus = CommandBus::new();
    let mut outbox = Outbox::new();
    assert!(parse_movement(&matchers, &client, "east", &mut bus));
    assert!(parse_movement(&matchers, &client, "e", &mut bus));
    assert!(parse_movement(&matchers, &client, "e", &mut bus));
    bus.send(ParsedCommand { from: client.id, command: Command::Look });

    movement(&mut world, &bus, &mut outbox);

    assert_eq!(world.parent(player), Some(far));
    assert_eq!(outbox.len(), 3);
    assert!(matches!(outbox.get(0).content, Reply::View { tile: 1, .. }));
    assert!(matches!(outbox.get(1).content, Reply::View { tile: 2, .. }));
    assert_eq!(get_text(&outbox, 2), "You can't go that way.");
}

fn get_text(outbox: &Outbox, i: usize) -> String {
    match &outbox.get(i).content {
        Reply::Text(text) => text.clone(),
        Reply::View { .. } => panic!("expected a text"),
    }
}

#[test]
fn the_edge_of_the_grid_has_no_neighbour() {
    let mut world = World::new();
    let tile = build_tile(&mut world, at(i32::MAX, i32::MIN, 0));
    let (client, player) = build_player(&mut world, tile, false);

    let east = send_message(&mut world, &client, "east");
    assert_eq!(get_message_content(&east), "You can't go that way.");
    let north = send_message(&mut world, &client, "north");
    assert_eq!(get_message_content(&north), "You can't go that way.");
    assert_eq!(world.parent(player), Some(tile));
}

#[test]
fn a_token_that_is_no_direction_is_dropped() {
    let mut world = World::new();
    let tile = build_tile(&mut world, at(0, 0, 0));
    let (client, player) = build_player(&mut world, tile, false);
    let mut bus = CommandBus::new();
    let mut outbox = Outbox::new();
    bus.send(ParsedCommand { from: client.id, command: Command::Movement("sideways".to_string()) });

    movement(&mut world, &bus, &mut outbox);

    assert_eq!(outbox.len(), 0);
    assert_eq!(world.parent(player), Some(tile));
}

#[test]
fn every_direction_has_its_offset() {
    let table = [
        ("north", "n", (0, -1, 0)),
        ("northeast", "ne", (1, -1, 0)),
        ("east", "e", (1, 0, 0)),
        ("southeast", "se", (1, 1, 0)),
        ("south", "s", (0, 1, 0)),
        ("southwest", "sw", (-1, 1, 0)),
        ("west", "w", (-1, 0, 0)),
        ("northwest", "nw", (-1, -1, 0)),
        ("up", "u", (0, 0, 1)),
        ("down", "d", (0, 0, -1)),
    ];
    for (long, short, (x, y, z)) in table {
        assert_eq!(offset_for_direction(long), Some(Coords { x, y, z }));
        assert_eq!(offset_for_direction(short), Some(Coords { x, y, z }));
    }
    assert_eq!(offset_for_direction("North"), None);
    assert_eq!(offset_for_direction(""), None);
    assert_eq!(offset_for_direction("north "), None);
    assert_eq!(offset_for_direction("left"), None);
}

#[test]
fn offsets_are_checked_against_the_grid() {
    let corner = Coords { x: i32::MAX, y: i32::MIN, z: 5 };
    assert_eq!(corner.offset(Coords { x: 1, y: 0, z: 0 }), None);
    assert_eq!(corner.offset(Coords { x: 0, y: -1, z: 0 }), None);
    assert_eq!(
        corner.offset(Coords { x: -1, y: 1, z: -5 }),
        Some(Coords { x: i32::MAX - 1, y: i32::MIN + 1, z: 0 })
    );
    assert_eq!(Coords::zero(), Coords { x: 0, y: 0, z: 0 });
}
