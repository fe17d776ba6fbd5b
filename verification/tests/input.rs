use server::command::{Command, CommandBus, ParsedCommand};
use server::input::{
    digit_of, enter_command_of, handle_take, parse, parse_enter, parse_look, parse_map,
    parse_movement, parse_teleport, parse_who, take_command_of, teleport_command_of, Matchers,
};
use server::player::{Client, ClientId};

fn client() -> Client {
    Client { id: ClientId(42), width: 80 }
}

fn only(bus: &CommandBus) -> &ParsedCommand {
    assert_eq!(bus.len(), 1);
    bus.get(0)
}

fn groups(texts: Vec<Option<&str>>) -> Vec<Option<String>> {
    texts.iter().map(|text| text.map(|text| text.to_string())).collect()
}

#[test]
fn take_line_gives_target_and_flag() {
    let matchers = Matchers::new().unwrap();
    let mut bus = CommandBus::new();
    assert!(handle_take(&matchers, &client(), "take stick", &mut bus));
    let command = only(&bus);
    assert_eq!(command.from, ClientId(42));
    assert!(matches!(&command.command, Command::Take((target, false)) if target == "stick"));
}

#[test]
fn take_all_sets_the_flag() {
    let matchers = Matchers::new().unwrap();
    let mut bus = CommandBus::new();
    assert!(handle_take(&matchers, &client(), "get all rusty sword", &mut bus));
    assert!(matches!(&only(&bus).command, Command::Take((target, true)) if target == "rusty sword"));
}

#[test]
fn take_target_is_trimmed_and_lowercased() {
    let matchers = Matchers::new().unwrap();
    let mut bus = CommandBus::new();
    assert!(handle_take(&matchers, &client(), "take   Big ROCK  ", &mut bus));
    assert!(matches!(&only(&bus).command, Command::Take((target, false)) if target == "big rock"));
}

#[test]
fn take_all_alone_asks_for_a_thing_called_all() {
    let matchers = Matchers::new().unwrap();
    let mut bus = CommandBus::new();
    assert!(handle_take(&matchers, &client(), "take all", &mut bus));
    assert!(handle_take(&matchers, &client(), "take all ", &mut bus));
    assert_eq!(bus.len(), 2);
    assert!(matches!(&bus.get(0).command, Command::Take((target, false)) if target == "all"));
    assert!(matches!(&bus.get(1).command, Command::Take((target, false)) if target == "all"));
}

#[test]
fn lines_that_are_no_take_are_rejected() {
    let matchers = Matchers::new().unwrap();
    let mut bus = CommandBus::new();
    for line in ["take", "take ", "takestick", "Take stick", " take stick", "grab stick", "take a\nb", ""] {
        assert!(!handle_take(&matchers, &client(), line, &mut bus), "{:?}", line);
    }
    assert_eq!(bus.len(), 0);
}

#[test]
fn take_command_is_built_from_the_groups() {
    let command = take_command_of(&groups(vec![
        Some("take all  The Stick "),
        Some("take"),
        Some("all "),
        Some("all"),
        Some(" The Stick "),
    ]));
    assert!(matches!(&command, Command::Take((target, true)) if target == "the stick"));

    let command = take_command_of(&groups(vec![Some("get x"), Some("get"), None, None, Some("x")]));
    assert!(matches!(&command, Command::Take((target, false)) if target == "x"));

    let command = take_command_of(&groups(vec![Some("get x")]));
    assert!(matches!(&command, Command::Take((target, false)) if target.is_empty()));
}

#[test]
fn movement_lines() {
    let matchers = Matchers::new().unwrap();
    let mut bus = CommandBus::new();
    let tokens = [
        "north", "n", "northeast", "ne", "east", "e", "southeast", "se", "south", "s",
        "southwest", "sw", "west", "w", "northwest", "nw", "up", "u", "down", "d",
    ];
    for (i, token) in tokens.iter().enumerate() {
        assert!(parse_movement(&matchers, &client(), token, &mut bus));
        assert_eq!(bus.len(), i + 1);
        assert!(matches!(&bus.get(i).command, Command::Movement(direction) if direction == token));
    }
    for line in ["North", "go north", "north ", "nn", "", "x"] {
        assert!(!parse_movement(&matchers, &client(), line, &mut bus), "{:?}", line);
    }
    assert_eq!(bus.len(), tokens.len());
}

#[test]
fn enter_lines() {
    let matchers = Matchers::new().unwrap();
    let mut bus = CommandBus::new();
    assert!(parse_enter(&matchers, &client(), "enter", &mut bus));
    assert!(parse_enter(&matchers, &client(), "enter the dragon ", &mut bus));
    assert!(!parse_enter(&matchers, &client(), "enter ", &mut bus));
    assert!(!parse_enter(&matchers, &client(), "enterprise", &mut bus));
    assert!(!parse_enter(&matchers, &client(), "re-enter", &mut bus));
    assert_eq!(bus.len(), 2);
    assert!(matches!(&bus.get(0).command, Command::Enter(None)));
    assert!(matches!(&bus.get(1).command, Command::Enter(Some(target)) if target == "the dragon"));
}

#[test]
fn enter_command_is_built_from_the_groups() {
    let command = enter_command_of(&groups(vec![Some("enter Gate"), Some("enter"), Some(" Gate")]));
    assert!(matches!(&command, Command::Enter(Some(target)) if target == "Gate"));
    let command = enter_command_of(&groups(vec![Some("enter"), Some("enter"), None]));
    assert!(matches!(&command, Command::Enter(None)));
}

#[test]
fn teleport_lines() {
    let matchers = Matchers::new().unwrap();
    let mut bus = CommandBus::new();
    assert!(parse_teleport(&matchers, &client(), "teleport here (1 2 3)", &mut bus));
    assert!(parse_teleport(&matchers, &client(), "tp movement (0 0 9)", &mut bus));
    assert!(parse_teleport(&matchers, &client(), "tp the far side (7 8 9)", &mut bus));
    for line in ["tp here (10 2 3)", "tp here 1 2 3", "tp (1 2 3)", "tp here (1 2)", "teleport here (-1 2 3)"] {
        assert!(!parse_teleport(&matchers, &client(), line, &mut bus), "{:?}", line);
    }
    assert_eq!(bus.len(), 3);
    assert!(matches!(&bus.get(0).command,
        Command::Teleport { region, x: 1, y: 2, z: 3 } if region == "here"));
    assert!(matches!(&bus.get(1).command,
        Command::Teleport { region, x: 0, y: 0, z: 9 } if region == "movement"));
    assert!(matches!(&bus.get(2).command,
        Command::Teleport { region, x: 7, y: 8, z: 9 } if region == "the far side"));
}

#[test]
fn a_digit_that_is_not_ascii_counts_as_zero() {
    let matchers = Matchers::new().unwrap();
    let mut bus = CommandBus::new();
    assert!(parse_teleport(&matchers, &client(), "tp here (\u{0663} 4 \u{0669})", &mut bus));
    assert!(matches!(&only(&bus).command,
        Command::Teleport { region, x: 0, y: 4, z: 0 } if region == "here"));
}

#[test]
fn digits() {
    for (i, text) in ["0", "1", "2", "3", "4", "5", "6", "7", "8", "9"].iter().enumerate() {
        assert_eq!(digit_of(text), i as i32);
    }
    for text in ["", "10", "a", "-", "+1", " 1", "/", ":", "\u{0663}"] {
        assert_eq!(digit_of(text), 0, "{:?}", text);
    }
}

#[test]
fn teleport_command_is_built_from_the_groups() {
    let command = teleport_command_of(&groups(vec![
        Some("tp void (4 5 6)"),
        Some("tp"),
        Some("void"),
        Some("void"),
        Some("4 5 6"),
        Some("4"),
        Some("5"),
        Some("6"),
    ]));
    assert!(matches!(&command, Command::Teleport { region, x: 4, y: 5, z: 6 } if region == "void"));
    let command = teleport_command_of(&groups(vec![Some("tp"), Some("tp")]));
    assert!(matches!(&command, Command::Teleport { region, x: 0, y: 0, z: 0 } if region == "here"));
}

#[test]
fn look_map_and_who_lines() {
    let matchers = Matchers::new().unwrap();
    let mut bus = CommandBus::new();
    assert!(parse_look(&matchers, &client(), "look", &mut bus));
    assert!(parse_look(&matchers, &client(), "l", &mut bus));
    assert!(!parse_look(&matchers, &client(), "look around", &mut bus));
    assert!(parse_map(&matchers, &client(), "map", &mut bus));
    assert!(parse_map(&matchers, &client(), "m", &mut bus));
    assert!(!parse_map(&matchers, &client(), "maps", &mut bus));
    assert!(parse_who(&matchers, &client(), "who", &mut bus));
    assert!(!parse_who(&matchers, &client(), "w", &mut bus));
    assert!(!parse_who(&matchers, &client(), "who?", &mut bus));
    assert_eq!(bus.len(), 5);
    assert!(matches!(bus.get(0).command, Command::Look));
    assert!(matches!(bus.get(1).command, Command::Look));
    assert!(matches!(bus.get(2).command, Command::Chart));
    assert!(matches!(bus.get(3).command, Command::Chart));
    assert!(matches!(bus.get(4).command, Command::Who));
}

#[test]
fn a_line_queues_at_most_one_command() {
    let matchers = Matchers::new().unwrap();
    let mut bus = CommandBus::new();
    let lines = ["take stick", "w", "enter cave", "tp here (1 1 1)", "l", "m", "who"];
    for (i, line) in lines.iter().enumerate() {
        assert!(parse(&matchers, &client(), line, &mut bus));
        assert_eq!(bus.len(), i + 1);
        assert_eq!(bus.get(i).from, ClientId(42));
    }
    assert!(matches!(bus.get(0).command, Command::Take(_)));
    assert!(matches!(bus.get(1).command, Command::Movement(_)));
    assert!(matches!(bus.get(2).command, Command::Enter(_)));
    assert!(matches!(bus.get(3).command, Command::Teleport { .. }));
    assert!(matches!(bus.get(4).command, Command::Look));
    assert!(matches!(bus.get(5).command, Command::Chart));
    assert!(matches!(bus.get(6).command, Command::Who));

    assert!(!parse(&matchers, &client(), "dance", &mut bus));
    assert!(!parse(&matchers, &client(), "", &mut bus));
    assert_eq!(bus.len(), lines.len());
}

#[test]
fn the_bus_keeps_order_and_can_be_cleared() {
    let mut bus = CommandBus::new();
    assert_eq!(bus.len(), 0);
    bus.send(ParsedCommand { from: ClientId(1), command: Command::Look });
    bus.send(ParsedCommand { from: ClientId(2), command: Command::Who });
    assert_eq!(bus.len(), 2);
    assert_eq!(bus.get(0).from, ClientId(1));
    assert_eq!(bus.get(1).from, ClientId(2));
    bus.clear();
    assert_eq!(bus.len(), 0);
}
