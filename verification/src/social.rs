//! The executor of `who`: the list of those who are online.

use crate::command::{
    text_to, Command, CommandBus, CommandView, Outbox, OutgoingView, ParsedCommandView,
};
use crate::world::{Body, BodyView, NodeView, World};
use vstd::prelude::*;

verus! {

/// The names of the characters that are online, in order of creation.
pub open spec fn online_names(nodes: Seq<NodeView>) -> Seq<Seq<char>>
    decreases nodes.len(),
{
    if nodes.len() == 0 {
        Seq::empty()
    } else {
        let before = online_names(nodes.drop_last());
        match nodes.last().body {
            BodyView::Player(player) => if player.online {
                before.push(player.character.name)
            } else {
                before
            },
            _ => before,
        }
    }
}

/// The parts with a comma and a space between each two.
pub open spec fn comma_join(parts: Seq<Seq<char>>) -> Seq<char>
    decreases parts.len(),
{
    if parts.len() == 0 {
        Seq::empty()
    } else if parts.len() == 1 {
        parts[0]
    } else {
        comma_join(parts.drop_last()) + ", "@ + parts.last()
    }
}

/// The answer to `who`.
pub open spec fn who_text(nodes: Seq<NodeView>) -> Seq<char> {
    "Online: "@ + comma_join(online_names(nodes))
}

/// What the `who` commands among `commands` send, oldest first: to each
/// sender the list of those who are online.
pub open spec fn who_run(
    nodes: Seq<NodeView>,
    out: Seq<OutgoingView>,
    commands: Seq<ParsedCommandView>,
) -> Seq<OutgoingView>
    decreases commands.len(),
{
    if commands.len() == 0 {
        out
    } else {
        let sent = who_run(nodes, out, commands.drop_last());
        match commands.last().command {
            CommandView::Who => sent.push(text_to(commands.last().from, who_text(nodes))),
            _ => sent,
        }
    }
}

/// Composes the answer to `who`.
pub fn list_online(world: &World) -> (text: String)
    ensures
        text@ == who_text(world@),
{
    let mut text = String::from_str("Online: ");
    let ghost mut listed: Seq<Seq<char>> = Seq::empty();
    let mut any = false;
    let n = world.len();
    let mut k: usize = 0;
    assert(world@.take(0) =~= Seq::<NodeView>::empty());
    while k < n
        invariant
            k <= n == world@.len(),
            listed == online_names(world@.take(k as int)),
            any == (listed.len() > 0),
            text@ == "Online: "@ + comma_join(listed),
        decreases n - k,
    {
        proof {
            assert(world@.take(k + 1).drop_last() =~= world@.take(k as int));
            assert(world@.take(k + 1).last() == world@[k as int]);
        }
        if let Body::Player(player) = world.body(k) {
            if player.online {
                let ghost head = text@;
                if any {
                    text.append(", ");
                }
                text.append(player.character.name.as_str());
                proof {
                    let grown = listed.push(player.character.name@);
                    assert(grown.drop_last() =~= listed);
                    assert(text@ =~= "Online: "@ + comma_join(grown));
                    listed = grown;
                }
                any = true;
            }
        }
        k += 1;
    }
    assert(world@.take(k as int) =~= world@);
    text
}

/// The executor of `who`.
pub fn who(world: &World, commands: &CommandBus, outbox: &mut Outbox)
    ensures
        final(outbox)@ == who_run(world@, old(outbox)@, commands@),
{
    let mut k: usize = 0;
    assert(commands@.take(0) =~= Seq::<ParsedCommandView>::empty());
    while k < commands.len()
        invariant
            k <= commands@.len(),
            outbox@ == who_run(world@, old(outbox)@, commands@.take(k as int)),
        decreases commands@.len() - k,
    {
        let command = commands.get(k);
        proof {
            assert(commands@.take(k + 1).drop_last() =~= commands@.take(k as int));
            assert(commands@.take(k + 1).last() == command@);
        }
        if let Command::Who = &command.command {
            outbox.send_text(command.from, list_online(world));
        }
        k += 1;
    }
    assert(commands@.take(k as int) =~= commands@);
}

} // verus!
