use server::command::{Command, CommandBus, Outbox, ParsedCommand, Reply};
use server::look::{draw_cell, draw_map, look, sprite_char, MAP_HEIGHT, MAP_WIDTH};
use server::player::{Character, CharacterConfig, Client, ClientId};
use server::social::{list_online, who};
use server::spatial::{Coords, Position, Zone};
use server::world::{Body, Player, Sprite, Tile, World};

fn at(zone: Zone, x: i32, y: i32, z: i32) -> Position {
    Position { zone, coords: Coords { x, y, z } }
}

fn build_tile(world: &mut World, position: Position, sprite: &str) -> usize {
    let tile = Tile {
        name: "Somewhere".to_string(),
        description: "A place.".to_string(),
        sprite: Sprite { character: sprite.to_string() },
    };
    world.spawn(Body::Tile(tile), None, position).unwrap()
}

fn build_player(world: &mut World, tile: usize, id: u128, name: &str, online: bool) -> (Client, usize) {
    let client = Client { id: ClientId(id), width: 80 };
    let character =
        Character { id: 0, name: name.to_string(), role: 0, config: CharacterConfig { brief: true } };
    let body = Body::Player(Player { client, character, online });
    let position = world.position(tile);
    (client, world.spawn(body, Some(tile), position).unwrap())
}

fn text_at(outbox: &Outbox, i: usize) -> String {
    match &outbox.get(i).content {
        Reply::Text(text) => text.clone(),
        Reply::View { .. } => panic!("expected a text"),
    }
}

fn one(from: ClientId, command: Command) -> CommandBus {
    let mut bus = CommandBus::new();
    bus.send(ParsedCommand { from, command });
    bus
}

#[test]
fn look_asks_for_the_view_of_the_tile() {
    let mut world = World::new();
    build_tile(&mut world, at(Zone::Void, 1, 0, 0), "~");
    let tile = build_tile(&mut world, at(Zone::Void, 0, 0, 0), ".");
    let (client, _) = build_player(&mut world, tile, 1, "ann", true);
    let mut outbox = Outbox::new();

    look(&world, &one(client.id, Command::Look), &mut outbox);

    assert_eq!(outbox.len(), 1);
    assert_eq!(outbox.get(0).to, client.id);
    assert!(matches!(outbox.get(0).content, Reply::View { tile: 1, brief: false }));
}

#[test]
fn look_from_nowhere_sends_nothing() {
    let mut world = World::new();
    let tile = build_tile(&mut world, at(Zone::Void, 0, 0, 0), ".");
    let (client, player) = build_player(&mut world, tile, 1, "ann", true);
    assert!(world.displace(player, at(Zone::Void, 7, 7, 7)));
    let mut outbox = Outbox::new();

    look(&world, &one(client.id, Command::Look), &mut outbox);
    look(&world, &one(ClientId(77), Command::Look), &mut outbox);

    assert_eq!(outbox.len(), 0);
}

#[test]
fn map_is_a_grid_around_the_player() {
    let mut world = World::new();
    let tile = build_tile(&mut world, at(Zone::Movement, 10, 20, 3), ".");
    build_tile(&mut world, at(Zone::Movement, 11, 20, 3), "~x");
    build_tile(&mut world, at(Zone::Movement, 10, 19, 3), "^");
    build_tile(&mut world, at(Zone::Movement, -22, 12, 3), "A");
    build_tile(&mut world, at(Zone::Movement, 41, 27, 3), "Z");
    build_tile(&mut world, at(Zone::Movement, 42, 20, 3), "!");
    build_tile(&mut world, at(Zone::Movement, 10, 28, 3), "!");
    build_tile(&mut world, at(Zone::Movement, 9, 20, 4), "!");
    build_tile(&mut world, at(Zone::Void, 9, 20, 3), "!");
    build_tile(&mut world, at(Zone::Movement, 9, 21, 3), "");
    let (client, _) = build_player(&mut world, tile, 1, "ann", true);
    let mut outbox = Outbox::new();

    server::look::map(&world, &one(client.id, Command::Chart), &mut outbox);

    assert_eq!(outbox.len(), 1);
    assert_eq!(outbox.get(0).to, client.id);
    let text = text_at(&outbox, 0);
    let lines: Vec<&str> = text.split('\n').collect();
    assert_eq!(lines.len(), 17);
    assert_eq!(lines[0], "movement");
    let mut expected = vec![vec![' '; 64]; 16];
    expected[8][32] = '@';
    expected[8][33] = '~';
    expected[7][32] = '^';
    expected[0][0] = 'A';
    expected[15][63] = 'Z';
    for row in 0..16 {
        let line: String = expected[row].iter().collect();
        assert_eq!(lines[row + 1], line, "row {}", row);
    }
}

#[test]
fn map_cells() {
    let mut world = World::new();
    let centre = at(Zone::Void, 0, 0, 0);
    let tile = build_tile(&mut world, centre, "o");
    let east = build_tile(&mut world, at(Zone::Void, 1, 0, 0), "\u{00e9}b");
    assert_eq!(MAP_WIDTH, 64);
    assert_eq!(MAP_HEIGHT, 16);
    assert_eq!(sprite_char(&world, tile), 'o');
    assert_eq!(sprite_char(&world, east), '\u{00e9}');
    assert_eq!(draw_cell(&world, centre, 8, 32), '@');
    assert_eq!(draw_cell(&world, centre, 8, 33), '\u{00e9}');
    assert_eq!(draw_cell(&world, centre, 8, 31), ' ');
    assert_eq!(draw_cell(&world, at(Zone::Void, 1, 1, 0), 7, 31), 'o');
}

#[test]
fn map_at_the_edge_of_the_grid() {
    let mut world = World::new();
    let corner = at(Zone::Void, i32::MAX, i32::MIN, 0);
    build_tile(&mut world, at(Zone::Void, i32::MAX - 1, i32::MIN, 0), "#");
    let text = draw_map(&world, corner);
    let lines: Vec<&str> = text.split('\n').collect();
    assert_eq!(lines.len(), 17);
    assert_eq!(lines[0], "void");
    for row in 0..16 {
        for (col, c) in lines[row + 1].chars().enumerate() {
            let expected = if row == 8 && col == 32 {
                '@'
            } else if row == 8 && col == 31 {
                '#'
            } else {
                ' '
            };
            assert_eq!(c, expected, "row {} col {}", row, col);
        }
        assert_eq!(lines[row + 1].chars().count(), 64);
    }
}

#[test]
fn who_lists_those_online() {
    let mut world = World::new();
    let tile = build_tile(&mut world, at(Zone::Void, 0, 0, 0), ".");
    assert_eq!(list_online(&world), "Online: ");
    let (ann, _) = build_player(&mut world, tile, 1, "ann", true);
    assert_eq!(list_online(&world), "Online: ann");
    let (_, bob) = build_player(&mut world, tile, 2, "bob", false);
    build_player(&mut world, tile, 3, "cyd", true);
    assert_eq!(list_online(&world), "Online: ann, cyd");
    assert!(world.set_online(bob, true));
    assert_eq!(list_online(&world), "Online: ann, bob, cyd");

    let mut outbox = Outbox::new();
    let mut bus = one(ann.id, Command::Who);
    bus.send(ParsedCommand { from: ClientId(99), command: Command::Who });
    bus.send(ParsedCommand { from: ClientId(99), command: Command::Look });
    who(&world, &bus, &mut outbox);
    assert_eq!(outbox.len(), 2);
    assert_eq!(outbox.get(0).to, ann.id);
    assert_eq!(text_at(&outbox, 0), "Online: ann, bob, cyd");
    assert_eq!(outbox.get(1).to, ClientId(99));
    assert_eq!(text_at(&outbox, 1), "Online: ann, bob, cyd");
}

#[test]
fn offline_players_are_not_served() {
    let mut world = World::new();
    let tile = build_tile(&mut world, at(Zone::Void, 0, 0, 0), ".");
    let (client, player) = build_player(&mut world, tile, 1, "ann", false);
    let mut outbox = Outbox::new();

    look(&world, &one(client.id, Command::Look), &mut outbox);
    server::look::map(&world, &one(client.id, Command::Chart), &mut outbox);
    assert_eq!(outbox.len(), 0);

    assert!(world.set_online(player, true));
    assert!(!world.set_online(tile, true));
    assert!(!world.set_online(100, true));
    look(&world, &one(client.id, Command::Look), &mut outbox);
    assert_eq!(outbox.len(), 1);
}

#[test]
fn the_outbox_is_drained_in_order() {
    let mut outbox = Outbox::new();
    outbox.send_text(ClientId(1), "one".to_string());
    outbox.send_view(ClientId(2), 5, true);
    assert_eq!(outbox.len(), 2);
    let messages = outbox.drain();
    assert_eq!(outbox.len(), 0);
    assert_eq!(messages.len(), 2);
    assert_eq!(messages[0].to, ClientId(1));
    assert!(matches!(&messages[0].content, Reply::Text(text) if text == "one"));
    assert_eq!(messages[1].to, ClientId(2));
    assert!(matches!(messages[1].content, Reply::View { tile: 5, brief: true }));
}
