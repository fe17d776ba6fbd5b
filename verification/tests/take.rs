use server::command::{CommandBus, Outbox, Reply};
use server::input::{handle_take, Matchers};
use server::items::take;
use server::player::{Character, CharacterConfig, Client, ClientId};
use server::spatial::{Coords, Position, Zone};
use server::world::{Body, Item, Player, Sprite, Tile, World};

fn origin() -> Position {
    Position { zone: Zone::Void, coords: Coords { x: 0, y: 0, z: 0 } }
}

fn build_tile(world: &mut World) -> usize {
    let tile = Tile {
        name: "Clearing".to_string(),
        description: "A quiet clearing.".to_string(),
        sprite: Sprite { character: ".".to_string() },
    };
    world.spawn(Body::Tile(tile), None, origin()).unwrap()
}

fn build_item(world: &mut World, tile: usize, name: &str, tags: Vec<&str>) -> usize {
    let item = Item {
        name: name.to_string(),
        short_name: name.to_string(),
        tags: tags.iter().map(|tag| tag.to_string()).collect(),
        takable: true,
    };
    world.spawn(Body::Item(item), Some(tile), origin()).unwrap()
}

fn build_player(world: &mut World, tile: usize) -> (Client, usize, usize) {
    let client = Client { id: ClientId(7), width: 80 };
    let character = Character {
        id: 0,
        name: "player".to_string(),
        role: 0,
        config: CharacterConfig { brief: false },
    };
    let body = Body::Player(Player { client, character, online: true });
    let player = world.spawn(body, Some(tile), origin()).unwrap();
    let inventory = world.spawn(Body::Inventory, Some(player), origin()).unwrap();
    (client, player, inventory)
}

fn send_message(world: &mut World, client: &Client, line: &str) -> Outbox {
    let matchers = Matchers::new().unwrap();
    let mut bus = CommandBus::new();
    let mut outbox = Outbox::new();
    assert!(handle_take(&matchers, client, line, &mut bus));
    take(world, &bus, &mut outbox);
    outbox
}

fn get_message_content(outbox: &Outbox, client: &Client) -> String {
    assert_eq!(outbox.len(), 1);
    let message = outbox.get(0);
    assert_eq!(message.to, client.id);
    match &message.content {
        Reply::Text(text) => text.clone(),
        Reply::View { .. } => panic!("expected a text"),
    }
}

#[test]
fn by_name() {
    let mut world = World::new();
    let tile = build_tile(&mut world);
    build_item(&mut world, tile, "stick", vec![]);
    build_item(&mut world, tile, "rock", vec![]);
    let (client, _, inventory) = build_player(&mut world, tile);

    let outbox = send_message(&mut world, &client, "take stick");
    let content = get_message_content(&outbox, &client);

    assert_eq!(content, format!("You take a stick."));
    assert_eq!(world.children(inventory).len(), 1);
    assert_eq!(world.children(tile).len(), 2);
}

#[test]
fn by_tag() {
    let mut world = World::new();
    let tile = build_tile(&mut world);
    build_item(&mut world, tile, "stick", vec!["weapon"]);
    let (client, _, inventory) = build_player(&mut world, tile);

    let outbox = send_message(&mut world, &client, "take weapon");
    let content = get_message_content(&outbox, &client);

    assert_eq!(content, format!("You take a stick."));
    assert_eq!(world.children(inventory).len(), 1);
    assert_eq!(world.children(tile).len(), 1);
}

#[test]
fn all() {
    let mut world = World::new();
    let tile = build_tile(&mut world);
    build_item(&mut world, tile, "stick", vec![]);
    build_item(&mut world, tile, "stick", vec![]);
    build_item(&mut world, tile, "rock", vec![]);
    let (client, _, inventory) = build_player(&mut world, tile);

    let outbox = send_message(&mut world, &client, "take all stick");
    let content = get_message_content(&outbox, &client);

    assert_eq!(content, format!("You take 2 sticks."));
    assert_eq!(world.children(inventory).len(), 2);
    assert_eq!(world.children(tile).len(), 2);
}

#[test]
fn not_found() {
    let mut world = World::new();
    let tile = build_tile(&mut world);
    let (client, _, inventory) = build_player(&mut world, tile);

    let outbox = send_message(&mut world, &client, "take sword");
    let content = get_message_content(&outbox, &client);

    assert_eq!(content, format!("You don't see a sword here."));
    assert!(world.children(inventory).is_empty());
}
