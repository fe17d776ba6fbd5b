//! Items: naming what was picked up, and the executor of `take`.

use crate::command::{
    text_to, Command, CommandBus, CommandView, Outbox, OutgoingView, ParsedCommandView,
};
use crate::locate::{find_inventory, find_tile, inventory_of, lemma_first_of_kind, tile_of};
use crate::player::ClientId;
use crate::text::{
    any_lowers_to, decimal, lowercase, lowers_to, push_decimal, some_lowers_to, to_lowercase,
};
use crate::world::{
    lemma_moved_preserves, lemma_owner_ranks_higher, lemma_reparented_keeps_bodies,
    lemma_requester, lemma_without, reparented, requester, well_formed, without, Body, BodyView,
    ItemView, Kind, NodeView, World,
};
use vstd::prelude::*;

verus! {

/// How often `name` occurs in `names`.
pub open spec fn occurrences(names: Seq<Seq<char>>, name: Seq<char>) -> nat
    decreases names.len(),
{
    if names.len() == 0 {
        0
    } else {
        occurrences(names.drop_last(), name) + if names.last() == name {
            1nat
        } else {
            0nat
        }
    }
}

/// The names that occur in `names`, each once, in the order in which they
/// first occur.
pub open spec fn distinct(names: Seq<Seq<char>>) -> Seq<Seq<char>>
    decreases names.len(),
{
    if names.len() == 0 {
        Seq::empty()
    } else {
        let before = distinct(names.drop_last());
        if before.contains(names.last()) {
            before
        } else {
            before.push(names.last())
        }
    }
}

/// How `count` things called `name` are spoken of: `a NAME` for one, else
/// the count and the name with an `s`.
pub open spec fn phrase(name: Seq<char>, count: nat) -> Seq<char> {
    if count == 1 {
        "a "@ + name
    } else {
        decimal(count) + " "@ + name + "s"@
    }
}

/// One phrase for each distinct name of `names`.
pub open spec fn phrases(names: Seq<Seq<char>>) -> Seq<Seq<char>> {
    Seq::new(
        distinct(names).len(),
        |k: int| phrase(distinct(names)[k], occurrences(names, distinct(names)[k])),
    )
}

/// Every part followed by a comma and a space.
pub open spec fn listing(parts: Seq<Seq<char>>) -> Seq<char>
    decreases parts.len(),
{
    if parts.len() == 0 {
        Seq::empty()
    } else {
        listing(parts.drop_last()) + parts.last() + ", "@
    }
}

/// The parts as a list in plain English: `A`, `A and B`, `A, B, and C`.
pub open spec fn natural_join(parts: Seq<Seq<char>>) -> Seq<char> {
    if parts.len() == 0 {
        Seq::empty()
    } else if parts.len() == 1 {
        parts[0]
    } else if parts.len() == 2 {
        parts[0] + " and "@ + parts[1]
    } else {
        listing(parts.drop_last()) + "and "@ + parts.last()
    }
}

/// The list of what was picked up: the items grouped by name, in the order
/// in which the names first occur.
pub open spec fn name_list(names: Seq<Seq<char>>) -> Seq<char> {
    natural_join(phrases(names))
}

/// Joins `parts` as [`natural_join`] says.
pub fn join_naturally(parts: &Vec<String>) -> (r: String)
    ensures
        r@ == natural_join(parts.deep_view()),
{
    let ghost views = parts.deep_view();
    let n = parts.len();
    let mut r = String::new();
    if n == 0 {
        return r;
    }
    assert(views[0] == parts[0]@);
    if n == 1 {
        r.append(parts[0].as_str());
        assert(r@ =~= views[0]);
        return r;
    }
    assert(views[1] == parts[1]@);
    if n == 2 {
        r.append(parts[0].as_str());
        r.append(" and ");
        r.append(parts[1].as_str());
        assert(r@ =~= views[0] + " and "@ + views[1]);
        return r;
    }
    let mut k: usize = 0;
    while k < n - 1
        invariant
            views == parts.deep_view(),
            n == parts.len(),
            2 < n,
            k <= n - 1,
            r@ == listing(views.take(k as int)),
        decreases n - k,
    {
        assert(views[k as int] == parts[k as int]@);
        r.append(parts[k].as_str());
        r.append(", ");
        k += 1;
        assert(views.take(k as int).drop_last() =~= views.take(k - 1));
        assert(r@ =~= listing(views.take(k as int)));
    }
    assert(views.take(n - 1) =~= views.drop_last());
    assert(views[n - 1] == parts[n - 1]@);
    r.append("and ");
    r.append(parts[n - 1].as_str());
    r
}

/// Speaks of `count` things called `name` as [`phrase`] says.
pub fn phrase_for(name: &str, count: usize) -> (r: String)
    ensures
        r@ == phrase(name@, count as nat),
{
    let mut r = String::new();
    if count == 1 {
        r.append("a ");
        r.append(name);
        assert(r@ =~= "a "@ + name@);
    } else {
        push_decimal(&mut r, count);
        r.append(" ");
        r.append(name);
        r.append("s");
        assert(r@ =~= decimal(count as nat) + " "@ + name@ + "s"@);
    }
    r
}

/// A name that is not among the distinct names does not occur.
pub proof fn lemma_absent_never_occurs(names: Seq<Seq<char>>, name: Seq<char>)
    requires
        !distinct(names).contains(name),
    ensures
        occurrences(names, name) == 0,
    decreases names.len(),
{
    if names.len() > 0 {
        let before = distinct(names.drop_last());
        if before.contains(names.last()) {
            lemma_absent_never_occurs(names.drop_last(), name);
        } else {
            assert(before.push(names.last()).last() == names.last());
            assert forall|k: int| 0 <= k < before.len() implies before[k] != name by {
                assert(before.push(names.last())[k] == before[k]);
            }
            lemma_absent_never_occurs(names.drop_last(), name);
        }
    }
}

/// No name is listed twice among the distinct names.
pub proof fn lemma_distinct_has_no_duplicates(names: Seq<Seq<char>>)
    ensures
        distinct(names).no_duplicates(),
    decreases names.len(),
{
    if names.len() > 0 {
        lemma_distinct_has_no_duplicates(names.drop_last());
    }
}

/// The place of `name` among `known`, if it is there.
fn place_of(known: &Vec<String>, name: &String) -> (r: Option<usize>)
    ensures
        match r {
            Some(k) => k < known.len() && known.deep_view()[k as int] == name@,
            None => !known.deep_view().contains(name@),
        },
{
    let mut k: usize = 0;
    while k < known.len()
        invariant
            k <= known.len(),
            forall|j: int| 0 <= j < k ==> #[trigger] known.deep_view()[j] != name@,
        decreases known.len() - k,
    {
        assert(known.deep_view()[k as int] == known[k as int]@);
        if known[k] == *name {
            return Some(k);
        }
        k += 1;
    }
    None
}

/// Names what was picked up: the items are grouped by name, in the order in
/// which the names first occur; one of a name is `a NAME`, several are the
/// count and `NAMEs`; the groups are joined as a list in plain English.
pub fn item_name_list(names: &Vec<String>) -> (r: String)
    ensures
        r@ == name_list(names.deep_view()),
{
    let ghost all = names.deep_view();
    let n = names.len();
    let mut kinds: Vec<String> = Vec::new();
    let mut counts: Vec<usize> = Vec::new();
    let mut i: usize = 0;
    assert(kinds.deep_view() =~= distinct(all.take(0)));
    while i < n
        invariant
            i <= n == names.len(),
            all == names.deep_view(),
            kinds.deep_view() == distinct(all.take(i as int)),
            counts@.len() == kinds@.len(),
            forall|j: int|
                0 <= j < counts@.len() ==> #[trigger] counts@[j] == occurrences(
                    all.take(i as int),
                    kinds.deep_view()[j],
                ) && counts@[j] <= i,
        decreases n - i,
    {
        let ghost seen = all.take(i as int);
        let ghost next = all.take(i + 1);
        let ghost known = kinds.deep_view();
        assert(next.drop_last() =~= seen);
        assert(next.last() == names[i as int]@);
        match place_of(&kinds, &names[i]) {
            Some(j) => {
                let ghost tally = counts@;
                counts[j] = counts[j] + 1;
                assert(kinds.deep_view() == distinct(next));
                assert forall|m: int| 0 <= m < counts@.len() implies #[trigger] counts@[m]
                    == occurrences(next, known[m]) && counts@[m] <= i + 1 by {
                    lemma_distinct_has_no_duplicates(seen);
                    assert(tally[m] == occurrences(seen, known[m]));
                }
            },
            None => {
                let ghost tally = counts@;
                proof {
                    lemma_absent_never_occurs(seen, names[i as int]@);
                }
                kinds.push(names[i].clone());
                counts.push(1);
                assert(kinds.deep_view() =~= known.push(names[i as int]@));
                assert forall|m: int| 0 <= m < counts@.len() implies #[trigger] counts@[m]
                    == occurrences(next, kinds.deep_view()[m]) && counts@[m] <= i + 1 by {
                    if m < tally.len() {
                        assert(tally[m] == occurrences(seen, known[m]));
                        assert(known.contains(known[m]));
                    }
                }
            },
        }
        i += 1;
    }
    assert(all.take(n as int) =~= all);
    let ghost wanted = phrases(all);
    let mut parts: Vec<String> = Vec::new();
    let mut k: usize = 0;
    assert(parts.deep_view() =~= wanted.take(0));
    while k < kinds.len()
        invariant
            k <= kinds.len() == counts.len(),
            wanted == phrases(all),
            kinds.deep_view() == distinct(all),
            forall|j: int|
                0 <= j < counts@.len() ==> #[trigger] counts@[j] == occurrences(
                    all,
                    kinds.deep_view()[j],
                ),
            parts.deep_view() == wanted.take(k as int),
        decreases kinds.len() - k,
    {
        let ghost done = parts.deep_view();
        assert(kinds.deep_view()[k as int] == kinds[k as int]@);
        let part = phrase_for(kinds[k].as_str(), counts[k]);
        assert(part@ == wanted[k as int]);
        parts.push(part);
        k += 1;
        assert(parts.deep_view() =~= done.push(wanted[k - 1]));
        assert(parts.deep_view() =~= wanted.take(k as int));
    }
    assert(wanted.take(k as int) =~= wanted);
    join_naturally(&parts)
}

/// Whether an item goes by `lowered`: its name or its short name, in
/// lowercase, or one of its tags, in lowercase, is exactly that text.
pub open spec fn answers_to(item: ItemView, lowered: Seq<char>) -> bool {
    ||| lowercase(item.name) == lowered
    ||| lowercase(item.short_name) == lowered
    ||| some_lowers_to(item.tags, lowered)
}

/// An item goes by each of its tags, whatever its name is and however the
/// tag is capitalised.
pub proof fn lemma_item_answers_to_its_tags(item: ItemView, k: int)
    requires
        0 <= k < item.tags.len(),
    ensures
        answers_to(item, lowercase(item.tags[k])),
{
}

/// Whether node `id` is an item that can be taken and goes by `lowered`.
pub open spec fn wanted(nodes: Seq<NodeView>, id: usize, lowered: Seq<char>) -> bool {
    id < nodes.len() && (nodes[id as int].body matches BodyView::Item(item) && item.takable
        && answers_to(item, lowered))
}

/// The test that [`found`] applies to each child of a tile.
pub open spec fn wanted_by(nodes: Seq<NodeView>, lowered: Seq<char>) -> spec_fn(usize) -> bool {
    |id: usize| wanted(nodes, id, lowered)
}

/// The children of `tile` that can be taken and go by `lowered`, in the
/// order in which the tile lists them.
pub open spec fn found(nodes: Seq<NodeView>, tile: int, lowered: Seq<char>) -> Seq<usize> {
    nodes[tile].children.filter(wanted_by(nodes, lowered))
}

/// All of `items` where `all` is set, else the first of them alone.
pub open spec fn chosen(items: Seq<usize>, all: bool) -> Seq<usize> {
    if all || items.len() <= 1 {
        items
    } else {
        items.subrange(0, 1)
    }
}

/// The forest after each of `items`, in turn, moved into `inventory`.
pub open spec fn carried(nodes: Seq<NodeView>, items: Seq<usize>, inventory: int) -> Seq<
    NodeView,
>
    decreases items.len(),
{
    if items.len() == 0 {
        nodes
    } else {
        reparented(carried(nodes, items.drop_last(), inventory), items.last() as int, inventory)
    }
}

/// The name of node `id`, if it is an item.
pub open spec fn name_of(nodes: Seq<NodeView>, id: usize) -> Seq<char> {
    match nodes[id as int].body {
        BodyView::Item(item) => item.name,
        _ => Seq::empty(),
    }
}

/// The names of `items`, in order.
pub open spec fn names_of(nodes: Seq<NodeView>, items: Seq<usize>) -> Seq<Seq<char>> {
    Seq::new(items.len(), |k: int| name_of(nodes, items[k]))
}

/// What the player is told after trying to take the things called `names`
/// on asking for `target`.
pub open spec fn take_answer(target: Seq<char>, names: Seq<Seq<char>>) -> Seq<char> {
    if names.len() == 0 {
        "You don't see a "@ + target + " here."@
    } else {
        "You take "@ + name_list(names) + "."@
    }
}

/// What one `take` command does to the forest and the outbox.
///
/// The requester must stand on a tile and carry an inventory, else nothing
/// happens. The items of the tile that can be taken and go by the target
/// are looked up; without `all` only the first counts. They move into the
/// inventory, and the requester is told what was taken, or that nothing of
/// that name is there.
pub open spec fn take_step(
    nodes: Seq<NodeView>,
    out: Seq<OutgoingView>,
    from: ClientId,
    target: Seq<char>,
    all: bool,
) -> (Seq<NodeView>, Seq<OutgoingView>) {
    match requester(nodes, from) {
        Some(player) => match (tile_of(nodes, player as int), inventory_of(nodes, player as int)) {
            (Some(tile), Some(inventory)) => {
                let items = chosen(found(nodes, tile as int, lowercase(target)), all);
                (
                    carried(nodes, items, inventory as int),
                    out.push(text_to(from, take_answer(target, names_of(nodes, items)))),
                )
            },
            _ => (nodes, out),
        },
        None => (nodes, out),
    }
}

/// What the `take` commands among `commands` do, oldest first.
pub open spec fn take_run(
    nodes: Seq<NodeView>,
    out: Seq<OutgoingView>,
    commands: Seq<ParsedCommandView>,
) -> (Seq<NodeView>, Seq<OutgoingView>)
    decreases commands.len(),
{
    if commands.len() == 0 {
        (nodes, out)
    } else {
        let (before, sent) = take_run(nodes, out, commands.drop_last());
        match commands.last().command {
            CommandView::Take(target, all) => take_step(
                before,
                sent,
                commands.last().from,
                target,
                all,
            ),
            _ => (before, sent),
        }
    }
}

/// Whether node `id` is an item that can be taken and goes by `lowered`.
fn is_wanted(world: &World, id: usize, lowered: &String) -> (r: bool)
    ensures
        r == wanted(world@, id, lowered@),
{
    if id >= world.len() {
        return false;
    }
    match world.body(id) {
        Body::Item(item) => {
            assert(world@[id as int].body == BodyView::Item(item@));
            if !item.takable {
                return false;
            }
            if lowers_to(item.name.as_str(), lowered) {
                return true;
            }
            if lowers_to(item.short_name.as_str(), lowered) {
                return true;
            }
            let tagged = any_lowers_to(&item.tags, lowered);
            assert(tagged == answers_to(item@, lowered@));
            tagged
        },
        _ => false,
    }
}

/// The name of node `id`, if it is an item.
fn item_name(world: &World, id: usize) -> (r: String)
    requires
        id < world@.len(),
    ensures
        r@ == name_of(world@, id),
{
    match world.body(id) {
        Body::Item(item) => item.name.clone(),
        _ => String::new(),
    }
}

/// Carrying items changes neither the number of nodes nor what any node is.
pub proof fn lemma_carried_keeps_bodies(nodes: Seq<NodeView>, items: Seq<usize>, inventory: int)
    ensures
        carried(nodes, items, inventory).len() == nodes.len(),
        forall|i: int|
            0 <= i < nodes.len() ==> (#[trigger] carried(nodes, items, inventory)[i]).body
                == nodes[i].body,
    decreases items.len(),
{
    if items.len() > 0 {
        let before = carried(nodes, items.drop_last(), inventory);
        lemma_carried_keeps_bodies(nodes, items.drop_last(), inventory);
        lemma_reparented_keeps_bodies(before, items.last() as int, inventory);
        assert forall|i: int| 0 <= i < nodes.len() implies (#[trigger] carried(
            nodes,
            items,
            inventory,
        )[i]).body == nodes[i].body by {
            assert(reparented(before, items.last() as int, inventory)[i].body == before[i].body);
        }
    }
}

/// Resolves one `take` command.
fn take_one(world: &mut World, outbox: &mut Outbox, from: ClientId, target: &String, all: bool)
    requires
        old(world).wf(),
    ensures
        final(world).wf(),
        (final(world)@, final(outbox)@) == take_step(
            old(world)@,
            old(outbox)@,
            from,
            target@,
            all,
        ),
{
    let ghost before = world@;
    let player = match world.find_player(from) {
        Some(player) => player,
        None => {
            return ;
        },
    };
    proof {
        lemma_requester(before, from);
    }
    let tile = match find_tile(world, player) {
        Some(tile) => tile,
        None => {
            return ;
        },
    };
    let inventory = match find_inventory(world, player) {
        Some(inventory) => inventory,
        None => {
            return ;
        },
    };
    let lowered = to_lowercase(target.as_str());
    let ghost test = wanted_by(before, lowered@);
    let mut items: Vec<usize> = Vec::new();
    let mut names: Vec<String> = Vec::new();
    let siblings = world.children(tile);
    let mut k: usize = 0;
    proof {
        reveal(Seq::filter);
        assert(siblings@.take(0) =~= Seq::<usize>::empty());
    }
    while k < siblings.len()
        invariant
            k <= siblings.len(),
            world@ == before,
            siblings@ == before[tile as int].children,
            test == wanted_by(before, lowered@),
            items@ == siblings@.take(k as int).filter(test),
            names.deep_view() == names_of(before, items@),
            forall|j: int| 0 <= j < items@.len() ==> wanted(before, #[trigger] items@[j], lowered@),
        decreases siblings.len() - k,
    {
        let id = siblings[k];
        proof {
            reveal(Seq::filter);
            assert(siblings@.take(k + 1).drop_last() =~= siblings@.take(k as int));
            assert(siblings@.take(k + 1).last() == id);
            assert(test(id) == wanted(before, id, lowered@));
        }
        if is_wanted(world, id, &lowered) {
            let ghost listed = names.deep_view();
            let name = item_name(world, id);
            items.push(id);
            names.push(name);
            assert(names.deep_view() =~= listed.push(name_of(before, id)));
            assert(names.deep_view() =~= names_of(before, items@));
        }
        k += 1;
    }
    assert(siblings@.take(k as int) =~= siblings@);
    if !all {
        let ghost listed = names.deep_view();
        items.truncate(1);
        names.truncate(1);
        assert(names.deep_view() =~= names_of(before, items@)) by {
            if listed.len() > 1 {
                assert(names.deep_view() =~= listed.subrange(0, 1));
            } else {
                assert(names.deep_view() =~= listed);
            }
        }
    }
    let text = answer(target.as_str(), &names);
    assert(items@ == chosen(found(before, tile as int, lowered@), all));
    let mut m: usize = 0;
    while m < items.len()
        invariant
            m <= items.len(),
            world.wf(),
            world@ == carried(before, items@.take(m as int), inventory as int),
            inventory < before.len(),
            before[inventory as int].body is Inventory,
            forall|j: int| 0 <= j < items@.len() ==> wanted(before, #[trigger] items@[j], lowered@),
        decreases items.len() - m,
    {
        proof {
            lemma_carried_keeps_bodies(before, items@.take(m as int), inventory as int);
            assert(items@.take(m + 1).drop_last() =~= items@.take(m as int));
            assert(wanted(before, items@[m as int], lowered@));
        }
        let done = world.reparent(items[m], inventory);
        assert(done);
        m += 1;
    }
    assert(items@.take(m as int) =~= items@);
    outbox.send_text(from, text);
}

/// Composes what the player is told.
fn answer(target: &str, names: &Vec<String>) -> (r: String)
    ensures
        r@ == take_answer(target@, names.deep_view()),
{
    let mut r = String::new();
    if names.len() == 0 {
        r.append("You don't see a ");
        r.append(target);
        r.append(" here.");
        assert(r@ =~= "You don't see a "@ + target@ + " here."@);
    } else {
        let list = item_name_list(names);
        r.append("You take ");
        r.append(list.as_str());
        r.append(".");
        assert(r@ =~= "You take "@ + name_list(names.deep_view()) + "."@);
    }
    r
}

/// The executor of `take`: resolves, oldest first, every `take` command
/// that waits on the bus.
pub fn take(world: &mut World, commands: &CommandBus, outbox: &mut Outbox)
    requires
        old(world).wf(),
    ensures
        final(world).wf(),
        (final(world)@, final(outbox)@) == take_run(old(world)@, old(outbox)@, commands@),
{
    let mut k: usize = 0;
    assert(commands@.take(0) =~= Seq::<ParsedCommandView>::empty());
    while k < commands.len()
        invariant
            k <= commands@.len(),
            world.wf(),
            (world@, outbox@) == take_run(old(world)@, old(outbox)@, commands@.take(k as int)),
        decreases commands@.len() - k,
    {
        let command = commands.get(k);
        proof {
            assert(commands@.take(k + 1).drop_last() =~= commands@.take(k as int));
            assert(commands@.take(k + 1).last() == command@);
        }
        if let Command::Take((target, all)) = &command.command {
            take_one(world, outbox, command.from, target, *all);
        }
        k += 1;
    }
    assert(commands@.take(k as int) =~= commands@);
}

/// Taking what is not there changes nothing: where no item of the tile can
/// be taken under the name asked for, the requester is told so and the
/// forest stays as it is.
pub proof fn lemma_take_miss(
    nodes: Seq<NodeView>,
    out: Seq<OutgoingView>,
    from: ClientId,
    target: Seq<char>,
    all: bool,
)
    requires
        requester(nodes, from) matches Some(player) && (tile_of(nodes, player as int) matches Some(
            tile,
        ) && inventory_of(nodes, player as int) is Some && found(
            nodes,
            tile as int,
            lowercase(target),
        ).len() == 0),
    ensures
        take_step(nodes, out, from, target, all) == (
            nodes,
            out.push(text_to(from, "You don't see a "@ + target + " here."@)),
        ),
{
}

/// Without `all`, a take that finds something moves exactly one node: the
/// first item found becomes the last child of the requester's inventory,
/// the tile has one child less, the inventory one more, and no other node
/// changes its owner.
pub proof fn lemma_take_moves_one(
    nodes: Seq<NodeView>,
    out: Seq<OutgoingView>,
    from: ClientId,
    target: Seq<char>,
)
    requires
        well_formed(nodes),
        requester(nodes, from) matches Some(player) && (tile_of(nodes, player as int) matches Some(
            tile,
        ) && inventory_of(nodes, player as int) is Some && found(
            nodes,
            tile as int,
            lowercase(target),
        ).len() > 0),
    ensures
        ({
            let player = requester(nodes, from)->0 as int;
            let tile = tile_of(nodes, player)->0 as int;
            let inventory = inventory_of(nodes, player)->0;
            let first = found(nodes, tile, lowercase(target))[0];
            let after = take_step(nodes, out, from, target, false).0;
            &&& well_formed(after)
            &&& after.len() == nodes.len()
            &&& after[first as int].parent == Some(inventory)
            &&& after[inventory as int].children == nodes[inventory as int].children.push(first)
            &&& after[tile].children.len() == nodes[tile].children.len() - 1
            &&& !after[tile].children.contains(first)
            &&& forall|i: int|
                0 <= i < nodes.len() && i != first ==> (#[trigger] after[i]).parent
                    == nodes[i].parent
        }),
{
    lemma_requester(nodes, from);
    let player = requester(nodes, from)->0 as int;
    let tile = tile_of(nodes, player)->0 as int;
    let inventory = inventory_of(nodes, player)->0;
    let all_found = found(nodes, tile, lowercase(target));
    let first = all_found[0];
    let test = wanted_by(nodes, lowercase(target));
    lemma_first_of_kind(nodes, nodes[player].children, Kind::Inventory);
    nodes[tile].children.lemma_filter_pred(test, 0);
    assert(test(first));
    assert(all_found.contains(first));
    nodes[tile].children.lemma_filter_contains_rev(test, first);
    let at = nodes[tile].children.index_of(first);
    assert(nodes[nodes[tile].children[at] as int].parent == Some(tile as usize));
    let items = chosen(all_found, false);
    assert(items =~= seq![first]);
    assert(items.drop_last() =~= Seq::<usize>::empty());
    assert(carried(nodes, items, inventory as int) == reparented(
        nodes,
        first as int,
        inventory as int,
    )) by {
        reveal_with_fuel(carried, 2);
    }
    lemma_moved_preserves(
        nodes,
        first as int,
        Some(inventory),
        nodes[inventory as int].position,
    );
    lemma_without(nodes[tile].children, first);
}

/// Filtering a list without repetitions leaves a list without repetitions.
pub proof fn lemma_filter_keeps_no_duplicates(list: Seq<usize>, test: spec_fn(usize) -> bool)
    requires
        list.no_duplicates(),
    ensures
        list.filter(test).no_duplicates(),
    decreases list.len(),
{
    reveal(Seq::filter);
    if list.len() > 0 {
        let front = list.drop_last();
        lemma_filter_keeps_no_duplicates(front, test);
        if test(list.last()) {
            if front.filter(test).contains(list.last()) {
                front.lemma_filter_contains_rev(test, list.last());
                let k = front.index_of(list.last());
                assert(list[k] == list.last());
            }
        }
    }
}

/// What carrying one item does: the item leaves its owner for the end of
/// the inventory's list and takes the inventory's place; nothing else
/// changes, and the forest stays well formed.
pub proof fn lemma_carry_one(nodes: Seq<NodeView>, item: int, owner: int, inventory: int)
    requires
        well_formed(nodes),
        0 <= item < nodes.len(),
        0 <= owner < nodes.len(),
        0 <= inventory < nodes.len(),
        owner != inventory,
        nodes[inventory].body is Inventory,
        nodes[item].body is Item,
        nodes[item].parent == Some(owner as usize),
    ensures
        ({
            let after = reparented(nodes, item, inventory);
            &&& well_formed(after)
            &&& after.len() == nodes.len()
            &&& forall|i: int|
                0 <= i < nodes.len() ==> {
                    &&& (#[trigger] after[i]).body == nodes[i].body
                    &&& after[i].parent == if i == item {
                        Some(inventory as usize)
                    } else {
                        nodes[i].parent
                    }
                    &&& after[i].position == if i == item {
                        nodes[inventory].position
                    } else {
                        nodes[i].position
                    }
                    &&& after[i].children == if i == inventory {
                        nodes[i].children.push(item as usize)
                    } else if i == owner {
                        without(nodes[i].children, item as usize)
                    } else {
                        nodes[i].children
                    }
                }
        }),
{
    let after = reparented(nodes, item, inventory);
    lemma_moved_preserves(nodes, item, Some(inventory as usize), nodes[inventory].position);
    assert forall|i: int| 0 <= i < nodes.len() implies (#[trigger] after[i]).position == if i
        == item {
        nodes[inventory].position
    } else {
        nodes[i].position
    } by {
        if let Some(p) = nodes[i].parent {
            lemma_owner_ranks_higher(nodes[p as int].body.kind(), nodes[i].body.kind());
            if let Some(q) = nodes[p as int].parent {
                lemma_owner_ranks_higher(nodes[q as int].body.kind(), nodes[p as int].body.kind());
            }
        }
    }
}

/// What carrying does: each of the items, which all lay with one owner,
/// lies in the inventory afterwards, at its place and behind what was there
/// before; the former owner keeps exactly its other children; nothing else
/// changes, and the forest stays well formed.
pub proof fn lemma_carried(nodes: Seq<NodeView>, items: Seq<usize>, owner: int, inventory: int)
    requires
        well_formed(nodes),
        0 <= owner < nodes.len(),
        0 <= inventory < nodes.len(),
        owner != inventory,
        nodes[inventory].body is Inventory,
        items.no_duplicates(),
        forall|k: int|
            0 <= k < items.len() ==> (#[trigger] items[k]) < nodes.len()
                && nodes[items[k] as int].body is Item
                && nodes[items[k] as int].parent == Some(owner as usize),
    ensures
        ({
            let after = carried(nodes, items, inventory);
            &&& well_formed(after)
            &&& after.len() == nodes.len()
            &&& forall|i: int|
                0 <= i < nodes.len() ==> {
                    &&& (#[trigger] after[i]).body == nodes[i].body
                    &&& after[i].parent == if items.contains(i as usize) {
                        Some(inventory as usize)
                    } else {
                        nodes[i].parent
                    }
                    &&& after[i].position == if items.contains(i as usize) {
                        nodes[inventory].position
                    } else {
                        nodes[i].position
                    }
                    &&& i != owner && i != inventory ==> after[i].children == nodes[i].children
                }
            &&& after[inventory].children == nodes[inventory].children + items
            &&& after[owner].children.no_duplicates()
            &&& after[owner].children.len() == nodes[owner].children.len() - items.len()
            &&& forall|c: usize|
                #[trigger] after[owner].children.contains(c) <==> nodes[owner].children.contains(c)
                    && !items.contains(c)
        }),
    decreases items.len(),
{
    let after = carried(nodes, items, inventory);
    if items.len() == 0 {
        assert(nodes[inventory].children + items =~= nodes[inventory].children);
    } else {
        let front = items.drop_last();
        let last = items.last();
        let before = carried(nodes, front, inventory);
        assert forall|k: int| 0 <= k < front.len() implies (#[trigger] front[k]) < nodes.len()
            && nodes[front[k] as int].body is Item && nodes[front[k] as int].parent == Some(
            owner as usize,
        ) by {
            assert(front[k] == items[k]);
        }
        lemma_carried(nodes, front, owner, inventory);
        assert(items[items.len() - 1] == last);
        assert(!front.contains(last)) by {
            if front.contains(last) {
                let k = front.index_of(last);
                assert(items[k] == last);
            }
        }
        assert forall|c: usize| #[trigger] items.contains(c) == (front.contains(c) || c
            == last) by {
            if front.contains(c) {
                let k = front.index_of(c);
                assert(items[k] == c);
            }
            if items.contains(c) && c != last {
                let k = items.index_of(c);
                assert(front[k] == c);
            }
        }
        assert(before[last as int].parent == Some(owner as usize));
        assert(before[last as int].body == nodes[last as int].body);
        assert(before[inventory].body == nodes[inventory].body);
        assert(before[inventory].position == nodes[inventory].position);
        lemma_carry_one(before, last as int, owner, inventory);
        assert(after == reparented(before, last as int, inventory));
        let kids = before[owner].children;
        assert(kids.contains(last));
        lemma_without(kids, last);
        assert(after[owner].children == without(kids, last));
        assert forall|c: usize| #[trigger]
            after[owner].children.contains(c) <==> nodes[owner].children.contains(c)
                && !items.contains(c) by {
            assert(kids.contains(c) <==> nodes[owner].children.contains(c) && !front.contains(c));
            assert(items.contains(c) == (front.contains(c) || c == last));
            if after[owner].children.contains(c) {
                let k = after[owner].children.index_of(c);
                assert(kids.contains(after[owner].children[k]));
            }
        }
        assert(after[inventory].children =~= nodes[inventory].children + items) by {
            assert(before[inventory].children == nodes[inventory].children + front);
            assert(front.push(last) =~= items);
        }
        assert forall|i: int| 0 <= i < nodes.len() implies {
            &&& (#[trigger] after[i]).body == nodes[i].body
            &&& after[i].parent == if items.contains(i as usize) {
                Some(inventory as usize)
            } else {
                nodes[i].parent
            }
            &&& after[i].position == if items.contains(i as usize) {
                nodes[inventory].position
            } else {
                nodes[i].position
            }
            &&& i != owner && i != inventory ==> after[i].children == nodes[i].children
        } by {
            assert(items.contains(i as usize) == (front.contains(i as usize) || i == last));
            assert(before[i].body == nodes[i].body);
        }
    }
}

/// With `all`, a take moves every item found: each lies in the requester's
/// inventory afterwards, in the order in which the tile listed them and
/// behind what the inventory held; the tile keeps exactly its other
/// children; and the forest stays well formed.
pub proof fn lemma_take_all_moves_all(
    nodes: Seq<NodeView>,
    out: Seq<OutgoingView>,
    from: ClientId,
    target: Seq<char>,
)
    requires
        well_formed(nodes),
        requester(nodes, from) matches Some(player) && (tile_of(nodes, player as int) is Some
            && inventory_of(nodes, player as int) is Some),
    ensures
        ({
            let player = requester(nodes, from)->0 as int;
            let tile = tile_of(nodes, player)->0 as int;
            let inventory = inventory_of(nodes, player)->0 as int;
            let items = found(nodes, tile, lowercase(target));
            let after = take_step(nodes, out, from, target, true).0;
            &&& well_formed(after)
            &&& after.len() == nodes.len()
            &&& forall|k: int|
                0 <= k < items.len() ==> after[#[trigger] items[k] as int].parent == Some(
                    inventory as usize,
                )
            &&& after[inventory].children == nodes[inventory].children + items
            &&& after[tile].children.len() == nodes[tile].children.len() - items.len()
            &&& forall|c: usize|
                after[tile].children.contains(c) <==> nodes[tile].children.contains(c) && !wanted(
                    nodes,
                    c,
                    lowercase(target),
                )
        }),
{
    lemma_requester(nodes, from);
    let player = requester(nodes, from)->0 as int;
    let tile = tile_of(nodes, player)->0 as int;
    let inventory = inventory_of(nodes, player)->0 as int;
    let test = wanted_by(nodes, lowercase(target));
    let kids = nodes[tile].children;
    let items = found(nodes, tile, lowercase(target));
    let after = take_step(nodes, out, from, target, true).0;
    lemma_first_of_kind(nodes, nodes[player].children, Kind::Inventory);
    lemma_filter_keeps_no_duplicates(kids, test);
    assert forall|k: int| 0 <= k < items.len() implies (#[trigger] items[k]) < nodes.len()
        && nodes[items[k] as int].body is Item && nodes[items[k] as int].parent == Some(
        tile as usize,
    ) by {
        kids.lemma_filter_pred(test, k);
        assert(test(items[k]));
        assert(items.contains(items[k]));
        kids.lemma_filter_contains_rev(test, items[k]);
        let at = kids.index_of(items[k]);
        assert(nodes[kids[at] as int].parent == Some(tile as usize));
    }
    lemma_carried(nodes, items, tile, inventory);
    assert forall|c: usize|
        after[tile].children.contains(c) <==> kids.contains(c) && !wanted(
            nodes,
            c,
            lowercase(target),
        ) by {
        if kids.contains(c) {
            let at = kids.index_of(c);
            if wanted(nodes, c, lowercase(target)) {
                assert(test(kids[at]));
                kids.lemma_filter_contains(test, at);
            }
            if items.contains(c) {
                let k = items.index_of(c);
                kids.lemma_filter_pred(test, k);
                assert(test(items[k]));
            }
        }
    }
    assert forall|k: int| 0 <= k < items.len() implies after[#[trigger] items[k] as int].parent
        == Some(inventory as usize) by {
        assert(items.contains(items[k]));
    }
}

} // verus!
