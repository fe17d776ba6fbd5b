//! The input matchers: one per kind of command. Each holds one compiled
//! pattern, tests a line of text against it and, where the line matches,
//! queues one structured command under the name of the client.

use crate::command::{Command, CommandBus, CommandView, ParsedCommand, ParsedCommandView};
use crate::pattern::{captures, pattern_captures, pattern_valid, regex_source};
use crate::player::Client;
use crate::text::{lowercase, to_lowercase, trim, trimmed};
use regex::Regex;
use vstd::prelude::*;

verus! {

/// `(take|get) [all] <target>`.
pub const TAKE_PATTERN: &'static str = r"^(take|get) ((?P<all>all) )?(?P<target>.+)$";

/// One of the ten directions, under its long or its short name.
pub const MOVEMENT_PATTERN: &'static str =
    r"^(north|n|northeast|ne|east|e|southeast|se|south|s|southwest|sw|west|w|northwest|nw|up|u|down|d)$";

/// `enter[ <target>]`.
pub const ENTER_PATTERN: &'static str = r"^(enter)(?P<transition> .+)?$";

/// `(teleport|tp) (here|<zone>) (<x> <y> <z>)`, each coordinate one digit.
pub const TELEPORT_PATTERN: &'static str = r"^(teleport|tp) (here|(.+)) \(((\d) (\d) (\d))\)$";

/// `look|l`.
pub const LOOK_PATTERN: &'static str = r"^(look|l)$";

/// `map|m`.
pub const MAP_PATTERN: &'static str = r"^(map|m)$";

/// `who`.
pub const WHO_PATTERN: &'static str = r"^who$";

/// The kinds of command, in the order in which their matchers are tried.
#[derive(Clone, Copy, Debug, PartialEq, Eq, Structural)]
pub enum CommandKind {
    Take,
    Movement,
    Enter,
    Teleport,
    Look,
    Chart,
    Who,
}

/// The pattern of the matcher for `kind`.
pub open spec fn pattern_of(kind: CommandKind) -> Seq<char> {
    match kind {
        CommandKind::Take => TAKE_PATTERN@,
        CommandKind::Movement => MOVEMENT_PATTERN@,
        CommandKind::Enter => ENTER_PATTERN@,
        CommandKind::Teleport => TELEPORT_PATTERN@,
        CommandKind::Look => LOOK_PATTERN@,
        CommandKind::Chart => MAP_PATTERN@,
        CommandKind::Who => WHO_PATTERN@,
    }
}

/// The compiled patterns of all matchers. They are compiled once, by
/// [`Matchers::new`], and only read afterwards.
pub struct Matchers {
    take: Regex,
    movement: Regex,
    enter: Regex,
    teleport: Regex,
    look: Regex,
    map: Regex,
    who: Regex,
}

impl Matchers {
    /// Every matcher holds the pattern of its kind.
    pub closed spec fn wf(&self) -> bool {
        &&& regex_source(self.take) == TAKE_PATTERN@
        &&& regex_source(self.movement) == MOVEMENT_PATTERN@
        &&& regex_source(self.enter) == ENTER_PATTERN@
        &&& regex_source(self.teleport) == TELEPORT_PATTERN@
        &&& regex_source(self.look) == LOOK_PATTERN@
        &&& regex_source(self.map) == MAP_PATTERN@
        &&& regex_source(self.who) == WHO_PATTERN@
    }
}

/// The first kind, in the order of [`CommandKind`], whose pattern the
/// engine does not accept.
pub open spec fn first_invalid() -> Option<CommandKind> {
    if !pattern_valid(TAKE_PATTERN@) {
        Some(CommandKind::Take)
    } else if !pattern_valid(MOVEMENT_PATTERN@) {
        Some(CommandKind::Movement)
    } else if !pattern_valid(ENTER_PATTERN@) {
        Some(CommandKind::Enter)
    } else if !pattern_valid(TELEPORT_PATTERN@) {
        Some(CommandKind::Teleport)
    } else if !pattern_valid(LOOK_PATTERN@) {
        Some(CommandKind::Look)
    } else if !pattern_valid(MAP_PATTERN@) {
        Some(CommandKind::Chart)
    } else if !pattern_valid(WHO_PATTERN@) {
        Some(CommandKind::Who)
    } else {
        None
    }
}

impl Matchers {
    /// Compiles the patterns of all matchers. Fails with the first kind
    /// whose pattern the engine refuses.
    pub fn new() -> (r: Result<Matchers, CommandKind>)
        ensures
            match r {
                Ok(matchers) => matchers.wf() && first_invalid() is None,
                Err(kind) => first_invalid() == Some(kind),
            },
    {
        let take = match Regex::new(TAKE_PATTERN) {
            Ok(compiled) => compiled,
            Err(_) => {
                return Err(CommandKind::Take);
            },
        };
        let movement = match Regex::new(MOVEMENT_PATTERN) {
            Ok(compiled) => compiled,
            Err(_) => {
                return Err(CommandKind::Movement);
            },
        };
        let enter = match Regex::new(ENTER_PATTERN) {
            Ok(compiled) => compiled,
            Err(_) => {
                return Err(CommandKind::Enter);
            },
        };
        let teleport = match Regex::new(TELEPORT_PATTERN) {
            Ok(compiled) => compiled,
            Err(_) => {
                return Err(CommandKind::Teleport);
            },
        };
        let look = match Regex::new(LOOK_PATTERN) {
            Ok(compiled) => compiled,
            Err(_) => {
                return Err(CommandKind::Look);
            },
        };
        let map = match Regex::new(MAP_PATTERN) {
            Ok(compiled) => compiled,
            Err(_) => {
                return Err(CommandKind::Chart);
            },
        };
        let who = match Regex::new(WHO_PATTERN) {
            Ok(compiled) => compiled,
            Err(_) => {
                return Err(CommandKind::Who);
            },
        };
        Ok(Matchers { take, movement, enter, teleport, look, map, who })
    }
}

/// The text of capture group `i`, if the group took part in the match.
pub open spec fn group(groups: Seq<Option<Seq<char>>>, i: int) -> Option<Seq<char>> {
    if 0 <= i < groups.len() {
        groups[i]
    } else {
        None
    }
}

/// The command that a matched `take` line stands for: the target is the
/// text of the last group, trimmed and in lowercase, and every match is
/// meant where the word `all` was captured.
pub open spec fn take_command(groups: Seq<Option<Seq<char>>>) -> CommandView {
    CommandView::Take(
        match group(groups, 4) {
            Some(target) => lowercase(trimmed(target)),
            None => Seq::empty(),
        },
        group(groups, 3) is Some,
    )
}

/// The command that a matched `enter` line stands for: the entrance asked
/// for is the trimmed rest of the line, if there is one.
pub open spec fn enter_command(groups: Seq<Option<Seq<char>>>) -> CommandView {
    CommandView::Enter(
        match group(groups, 2) {
            Some(target) => Some(trimmed(target)),
            None => None,
        },
    )
}

/// The number that a coordinate literal stands for: the value of a single
/// digit `0` to `9`, and 0 for any other text.
pub open spec fn digit_value(text: Seq<char>) -> i32 {
    if text.len() == 1 && 48 <= text[0] as u32 <= 57 {
        (text[0] as u32 - 48) as i32
    } else {
        0
    }
}

/// The coordinate that a capture group stands for.
pub open spec fn coordinate(captured: Option<Seq<char>>) -> i32 {
    match captured {
        Some(text) => digit_value(text),
        None => 0,
    }
}

/// The command that a matched `teleport` line stands for.
pub open spec fn teleport_command(groups: Seq<Option<Seq<char>>>) -> CommandView {
    CommandView::Teleport {
        region: match group(groups, 2) {
            Some(region) => region,
            None => "here"@,
        },
        x: coordinate(group(groups, 5)),
        y: coordinate(group(groups, 6)),
        z: coordinate(group(groups, 7)),
    }
}

/// The text of capture group `i`, if the group took part in the match.
fn group_at(groups: &Vec<Option<String>>, i: usize) -> (r: Option<&String>)
    ensures
        match r {
            Some(text) => group(groups.deep_view(), i as int) == Some(text@),
            None => group(groups.deep_view(), i as int) is None,
        },
{
    if i < groups.len() {
        assert(groups.deep_view()[i as int] == groups[i as int].deep_view());
        match &groups[i] {
            Some(text) => Some(text),
            None => None,
        }
    } else {
        None
    }
}

/// Builds the command of a matched `take` line from its capture groups.
pub fn take_command_of(groups: &Vec<Option<String>>) -> (command: Command)
    ensures
        command@ == take_command(groups.deep_view()),
{
    let target = match group_at(groups, 4) {
        Some(text) => to_lowercase(trim(text.as_str()).as_str()),
        None => String::new(),
    };
    let all = group_at(groups, 3).is_some();
    Command::Take((target, all))
}

/// Builds the command of a matched `enter` line from its capture groups.
pub fn enter_command_of(groups: &Vec<Option<String>>) -> (command: Command)
    ensures
        command@ == enter_command(groups.deep_view()),
{
    let target = match group_at(groups, 2) {
        Some(text) => Some(trim(text.as_str())),
        None => None,
    };
    Command::Enter(target)
}

/// The number that a coordinate literal stands for.
pub fn digit_of(text: &str) -> (r: i32)
    ensures
        r == digit_value(text@),
        0 <= r <= 9,
{
    if text.unicode_len() != 1 {
        return 0;
    }
    let c = text.get_char(0);
    let code = c as u32;
    if 48 <= code && code <= 57 {
        (code - 48) as i32
    } else {
        0
    }
}

/// Builds the command of a matched `teleport` line from its capture groups.
pub fn teleport_command_of(groups: &Vec<Option<String>>) -> (command: Command)
    ensures
        command@ == teleport_command(groups.deep_view()),
{
    let region = match group_at(groups, 2) {
        Some(text) => text.clone(),
        None => String::from_str("here"),
    };
    let x = match group_at(groups, 5) {
        Some(text) => digit_of(text.as_str()),
        None => 0,
    };
    let y = match group_at(groups, 6) {
        Some(text) => digit_of(text.as_str()),
        None => 0,
    };
    let z = match group_at(groups, 7) {
        Some(text) => digit_of(text.as_str()),
        None => 0,
    };
    Command::Teleport { region, x, y, z }
}

/// The command that `content` stands for under the matcher of `kind`, if
/// the matcher accepts it.
pub open spec fn recognised(kind: CommandKind, content: Seq<char>) -> Option<CommandView> {
    match pattern_captures(pattern_of(kind), content) {
        Some(groups) => Some(
            match kind {
                CommandKind::Take => take_command(groups),
                CommandKind::Movement => CommandView::Movement(content),
                CommandKind::Enter => enter_command(groups),
                CommandKind::Teleport => teleport_command(groups),
                CommandKind::Look => CommandView::Look,
                CommandKind::Chart => CommandView::Chart,
                CommandKind::Who => CommandView::Who,
            },
        ),
        None => None,
    }
}

/// The bus after a matcher saw a line: one command more where the matcher
/// accepted the line, else as before.
pub open spec fn queued(
    waiting: Seq<ParsedCommandView>,
    client: Client,
    command: Option<CommandView>,
) -> Seq<ParsedCommandView> {
    match command {
        Some(command) => waiting.push(ParsedCommandView { from: client.id, command }),
        None => waiting,
    }
}

/// The matcher of `take`: `(take|get) [all] <target>`.
pub fn handle_take(
    matchers: &Matchers,
    client: &Client,
    content: &str,
    commands: &mut CommandBus,
) -> (matched: bool)
    requires
        matchers.wf(),
    ensures
        matched == (recognised(CommandKind::Take, content@) is Some),
        final(commands)@ == queued(
            old(commands)@,
            *client,
            recognised(CommandKind::Take, content@),
        ),
{
    match captures(&matchers.take, content) {
        Some(groups) => {
            commands.send(ParsedCommand { from: client.id, command: take_command_of(&groups) });
            true
        },
        None => false,
    }
}

/// The matcher of movement: one of the direction tokens.
pub fn parse_movement(
    matchers: &Matchers,
    client: &Client,
    content: &str,
    commands: &mut CommandBus,
) -> (matched: bool)
    requires
        matchers.wf(),
    ensures
        matched == (recognised(CommandKind::Movement, content@) is Some),
        final(commands)@ == queued(
            old(commands)@,
            *client,
            recognised(CommandKind::Movement, content@),
        ),
{
    if matchers.movement.is_match(content) {
        commands.send(
            ParsedCommand { from: client.id, command: Command::Movement(content.to_owned()) },
        );
        true
    } else {
        false
    }
}

/// The matcher of `enter`: `enter[ <target>]`.
pub fn parse_enter(
    matchers: &Matchers,
    client: &Client,
    content: &str,
    commands: &mut CommandBus,
) -> (matched: bool)
    requires
        matchers.wf(),
    ensures
        matched == (recognised(CommandKind::Enter, content@) is Some),
        final(commands)@ == queued(
            old(commands)@,
            *client,
            recognised(CommandKind::Enter, content@),
        ),
{
    match captures(&matchers.enter, content) {
        Some(groups) => {
            commands.send(ParsedCommand { from: client.id, command: enter_command_of(&groups) });
            true
        },
        None => false,
    }
}

/// The matcher of teleport: `(teleport|tp) (here|<zone>) (<x> <y> <z>)`,
/// each coordinate a single digit.
pub fn parse_teleport(
    matchers: &Matchers,
    client: &Client,
    content: &str,
    commands: &mut CommandBus,
) -> (matched: bool)
    requires
        matchers.wf(),
    ensures
        matched == (recognised(CommandKind::Teleport, content@) is Some),
        final(commands)@ == queued(
            old(commands)@,
            *client,
            recognised(CommandKind::Teleport, content@),
        ),
{
    match captures(&matchers.teleport, content) {
        Some(groups) => {
            commands.send(
                ParsedCommand { from: client.id, command: teleport_command_of(&groups) },
            );
            true
        },
        None => false,
    }
}

/// The matcher of `look`: `look|l`.
pub fn parse_look(
    matchers: &Matchers,
    client: &Client,
    content: &str,
    commands: &mut CommandBus,
) -> (matched: bool)
    requires
        matchers.wf(),
    ensures
        matched == (recognised(CommandKind::Look, content@) is Some),
        final(commands)@ == queued(
            old(commands)@,
            *client,
            recognised(CommandKind::Look, content@),
        ),
{
    if matchers.look.is_match(content) {
        commands.send(ParsedCommand { from: client.id, command: Command::Look });
        true
    } else {
        false
    }
}

/// The matcher of `map`: `map|m`.
pub fn parse_map(
    matchers: &Matchers,
    client: &Client,
    content: &str,
    commands: &mut CommandBus,
) -> (matched: bool)
    requires
        matchers.wf(),
    ensures
        matched == (recognised(CommandKind::Chart, content@) is Some),
        final(commands)@ == queued(
            old(commands)@,
            *client,
            recognised(CommandKind::Chart, content@),
        ),
{
    if matchers.map.is_match(content) {
        commands.send(ParsedCommand { from: client.id, command: Command::Chart });
        true
    } else {
        false
    }
}

/// The matcher of `who`.
pub fn parse_who(
    matchers: &Matchers,
    client: &Client,
    content: &str,
    commands: &mut CommandBus,
) -> (matched: bool)
    requires
        matchers.wf(),
    ensures
        matched == (recognised(CommandKind::Who, content@) is Some),
        final(commands)@ == queued(
            old(commands)@,
            *client,
            recognised(CommandKind::Who, content@),
        ),
{
    if matchers.who.is_match(content) {
        commands.send(ParsedCommand { from: client.id, command: Command::Who });
        true
    } else {
        false
    }
}

/// The command that a line stands for: that of the first matcher, in the
/// order of [`CommandKind`], that accepts it.
pub open spec fn understood(content: Seq<char>) -> Option<CommandView> {
    if recognised(CommandKind::Take, content) is Some {
        recognised(CommandKind::Take, content)
    } else if recognised(CommandKind::Movement, content) is Some {
        recognised(CommandKind::Movement, content)
    } else if recognised(CommandKind::Enter, content) is Some {
        recognised(CommandKind::Enter, content)
    } else if recognised(CommandKind::Teleport, content) is Some {
        recognised(CommandKind::Teleport, content)
    } else if recognised(CommandKind::Look, content) is Some {
        recognised(CommandKind::Look, content)
    } else if recognised(CommandKind::Chart, content) is Some {
        recognised(CommandKind::Chart, content)
    } else {
        recognised(CommandKind::Who, content)
    }
}

/// Tries the matchers in turn on one line of input. The first that accepts
/// the line queues its command; no other is tried, so a line queues at most
/// one command. Returns whether some matcher accepted the line.
pub fn parse(matchers: &Matchers, client: &Client, content: &str, commands: &mut CommandBus) -> (
    matched: bool
)
    requires
        matchers.wf(),
    ensures
        matched == (understood(content@) is Some),
        final(commands)@ == queued(old(commands)@, *client, understood(content@)),
        final(commands)@.len() <= old(commands)@.len() + 1,
{
    handle_take(matchers, client, content, commands) || parse_movement(
        matchers,
        client,
        content,
        commands,
    ) || parse_enter(matchers, client, content, commands) || parse_teleport(
        matchers,
        client,
        content,
        commands,
    ) || parse_look(matchers, client, content, commands) || parse_map(
        matchers,
        client,
        content,
        commands,
    ) || parse_who(matchers, client, content, commands)
}

} // verus!
