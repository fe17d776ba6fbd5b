//! Structured commands, the bus that carries them from the matchers to the
//! executors, and the outbox that carries the answers back.

use crate::player::ClientId;
use vstd::prelude::*;

verus! {

/// What a line of input asks for.
#[derive(Debug)]
pub enum Command {
    /// The target, and whether every match is meant.
    Take((String, bool)),
    /// A direction token.
    Movement(String),
    /// The entrance asked for, if one was named.
    Enter(Option<String>),
    /// The zone asked for (`here` for the current one) and the coordinates.
    Teleport { region: String, x: i32, y: i32, z: i32 },
    Look,
    Chart,
    Who,
}

/// A [`Command`] as contracts see it: texts as sequences of characters.
pub enum CommandView {
    Take(Seq<char>, bool),
    Movement(Seq<char>),
    Enter(Option<Seq<char>>),
    Teleport { region: Seq<char>, x: i32, y: i32, z: i32 },
    Look,
    Chart,
    Who,
}

impl View for Command {
    type V = CommandView;

    open spec fn view(&self) -> CommandView {
        match self {
            Command::Take((target, all)) => CommandView::Take(target@, *all),
            Command::Movement(direction) => CommandView::Movement(direction@),
            Command::Enter(target) => CommandView::Enter(
                match target {
                    Some(name) => Some(name@),
                    None => None,
                },
            ),
            Command::Teleport { region, x, y, z } => CommandView::Teleport {
                region: region@,
                x: *x,
                y: *y,
                z: *z,
            },
            Command::Look => CommandView::Look,
            Command::Chart => CommandView::Chart,
            Command::Who => CommandView::Who,
        }
    }
}

/// A command together with the connection that it came from.
#[derive(Debug)]
pub struct ParsedCommand {
    pub from: ClientId,
    pub command: Command,
}

/// A [`ParsedCommand`] as contracts see it.
pub struct ParsedCommandView {
    pub from: ClientId,
    pub command: CommandView,
}

impl View for ParsedCommand {
    type V = ParsedCommandView;

    open spec fn view(&self) -> ParsedCommandView {
        ParsedCommandView { from: self.from, command: self.command@ }
    }
}

/// The queue of the commands of one tick, in order of arrival. It has no
/// limit of its own: it grows with what is sent until it is cleared.
pub struct CommandBus {
    queue: Vec<ParsedCommand>,
}

impl View for CommandBus {
    type V = Seq<ParsedCommandView>;

    closed spec fn view(&self) -> Seq<ParsedCommandView> {
        Seq::new(self.queue@.len(), |i: int| self.queue@[i]@)
    }
}

impl CommandBus {
    /// An empty bus.
    pub fn new() -> (bus: CommandBus)
        ensures
            bus@ == Seq::<ParsedCommandView>::empty(),
    {
        let bus = CommandBus { queue: Vec::new() };
        assert(bus@ =~= Seq::<ParsedCommandView>::empty());
        bus
    }

    /// Queues a command behind those already waiting.
    pub fn send(&mut self, command: ParsedCommand)
        ensures
            final(self)@ == old(self)@.push(command@),
    {
        self.queue.push(command);
        assert(self@ =~= old(self)@.push(command@));
    }

    /// The number of commands waiting.
    pub fn len(&self) -> (n: usize)
        ensures
            n == self@.len(),
    {
        self.queue.len()
    }

    /// The command at place `i`, counted from the oldest.
    pub fn get(&self, i: usize) -> (command: &ParsedCommand)
        requires
            i < self@.len(),
        ensures
            command@ == self@[i as int],
    {
        &self.queue[i]
    }

    /// Empties the bus at the end of a tick.
    pub fn clear(&mut self)
        ensures
            final(self)@ == Seq::<ParsedCommandView>::empty(),
    {
        self.queue.clear();
        assert(self@ =~= Seq::<ParsedCommandView>::empty());
    }
}

/// What is sent to a client: a finished text, or the request to show a tile
/// as the renderer describes it, in short where `brief` is set.
#[derive(Debug)]
pub enum Reply {
    Text(String),
    View { tile: usize, brief: bool },
}

/// A [`Reply`] as contracts see it.
pub enum ReplyView {
    Text(Seq<char>),
    View { tile: usize, brief: bool },
}

impl View for Reply {
    type V = ReplyView;

    open spec fn view(&self) -> ReplyView {
        match self {
            Reply::Text(text) => ReplyView::Text(text@),
            Reply::View { tile, brief } => ReplyView::View { tile: *tile, brief: *brief },
        }
    }
}

/// A reply and the connection that it goes to.
#[derive(Debug)]
pub struct Outgoing {
    pub to: ClientId,
    pub content: Reply,
}

/// An [`Outgoing`] as contracts see it.
pub struct OutgoingView {
    pub to: ClientId,
    pub content: ReplyView,
}

impl View for Outgoing {
    type V = OutgoingView;

    open spec fn view(&self) -> OutgoingView {
        OutgoingView { to: self.to, content: self.content@ }
    }
}

/// The text `text`, addressed to `to`.
pub open spec fn text_to(to: ClientId, text: Seq<char>) -> OutgoingView {
    OutgoingView { to, content: ReplyView::Text(text) }
}

/// The view of tile `tile`, addressed to `to`.
pub open spec fn view_to(to: ClientId, tile: usize, brief: bool) -> OutgoingView {
    OutgoingView { to, content: ReplyView::View { tile, brief } }
}

/// The replies of one tick, in the order in which they were written.
pub struct Outbox {
    messages: Vec<Outgoing>,
}

impl View for Outbox {
    type V = Seq<OutgoingView>;

    closed spec fn view(&self) -> Seq<OutgoingView> {
        Seq::new(self.messages@.len(), |i: int| self.messages@[i]@)
    }
}

impl Outbox {
    /// An empty outbox.
    pub fn new() -> (outbox: Outbox)
        ensures
            outbox@ == Seq::<OutgoingView>::empty(),
    {
        let outbox = Outbox { messages: Vec::new() };
        assert(outbox@ =~= Seq::<OutgoingView>::empty());
        outbox
    }

    /// Queues `text` for the client `to`.
    pub fn send_text(&mut self, to: ClientId, text: String)
        ensures
            final(self)@ == old(self)@.push(text_to(to, text@)),
    {
        self.messages.push(Outgoing { to, content: Reply::Text(text) });
        assert(self@ =~= old(self)@.push(text_to(to, text@)));
    }

    /// Queues the view of a tile for the client `to`.
    pub fn send_view(&mut self, to: ClientId, tile: usize, brief: bool)
        ensures
            final(self)@ == old(self)@.push(view_to(to, tile, brief)),
    {
        self.messages.push(Outgoing { to, content: Reply::View { tile, brief } });
        assert(self@ =~= old(self)@.push(view_to(to, tile, brief)));
    }

    /// The number of replies waiting.
    pub fn len(&self) -> (n: usize)
        ensures
            n == self@.len(),
    {
        self.messages.len()
    }

    /// The reply at place `i`, counted from the oldest.
    pub fn get(&self, i: usize) -> (message: &Outgoing)
        requires
            i < self@.len(),
        ensures
            message@ == self@[i as int],
    {
        &self.messages[i]
    }

    /// Hands the waiting replies over, oldest first, and leaves the outbox
    /// empty.
    pub fn drain(&mut self) -> (messages: Vec<Outgoing>)
        ensures
            final(self)@ == Seq::<OutgoingView>::empty(),
            messages@.len() == old(self)@.len(),
            forall|i: int| 0 <= i < messages@.len() ==> (#[trigger] messages@[i])@ == old(self)@[i],
    {
        let mut messages: Vec<Outgoing> = Vec::new();
        std::mem::swap(&mut self.messages, &mut messages);
        assert(self@ =~= Seq::<OutgoingView>::empty());
        messages
    }
}

} // verus!
