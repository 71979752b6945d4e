//! What succeeds on a machine on which nothing fails for a reason that the disk does not show.

use vstd::prelude::*;
use vstd::utf8::*;

use crate::changes::{
    concerns, lemma_channel_places, lemma_closed, lemma_link_replaced, lemma_noted, lemma_selects,
};
use crate::channel::Channel;
use crate::disk::{
    at, kept, lemma_created_file, lemma_done, lemma_linked, lemma_removed, lemma_stored,
    lemma_written,
};
use crate::host::{reaches, Deed, Node, Outside, Sight, World};
use crate::installation::{installation_at, pointer_of, state_of, Installed, Selected};
use crate::layout::synced;
use crate::locate::{
    below, draft_name, is_name, is_place, lemma_apart, lemma_draft, lemma_draft_name, lemma_names,
    lemma_names_apart, lemma_siblings_apart,
};
use crate::path::{absolute, same_path};
use crate::paths::{link_target, places_below, within, Places};
use crate::pointers::{
    change_closed, change_committed, change_finished, link_replaced, note_written,
    transaction_draft,
};
use crate::separation::{lemma_installs_unconcerned, lemma_release_parts, lemma_state_bytes};
use crate::transaction::{change_text, names_release_of, Change};

verus! {

/// Whether nothing fails for a reason that the disk does not show, and whether what a symbolic link
/// leads to changes only with the link.
pub open spec fn calm(outside: Outside) -> bool {
    &&& forall|moment: nat, nodes: Map<Seq<u8>, Node>, deed: Deed|
        (#[trigger] (outside.fault)(moment, nodes, deed)) is None
    &&& forall|nodes: Map<Seq<u8>, Node>, later: Map<Seq<u8>, Node>, path: Seq<u8>|
        at(nodes, path) == at(later, path) ==> #[trigger] (outside.end)(nodes, path)
            == #[trigger] (outside.end)(later, path)
}

/// Whether nothing is below a path.
pub open spec fn leaf(nodes: Map<Seq<u8>, Node>, path: Seq<u8>) -> bool {
    forall|inner: Seq<u8>| #[trigger]
        nodes.contains_key(inner) && reaches(path, inner) ==> inner == path
}

/// What an inspection finds on a calm machine.
pub proof fn lemma_calm_sight(w: World, path: Seq<u8>)
    requires
        calm(w.outside),
    ensures
        match at(w.nodes, path) {
            Some(node) => w.sight(path) == Sight::Present(node.entry()),
            None => w.sight(path) is Absent,
        },
{
    reveal(World::sight);
    assert((w.outside.fault)(w.moment, w.nodes, Deed::Inspect(path)) is None);
}

/// What a link points to on a calm machine.
pub proof fn lemma_calm_target(w: World, path: Seq<u8>, target: Seq<u8>)
    requires
        calm(w.outside),
        at(w.nodes, path) == Some(Node::Link { target }),
    ensures
        w.target(path) == Ok::<Seq<u8>, Seq<char>>(target),
{
    reveal(World::target);
    assert((w.outside.fault)(w.moment, w.nodes, Deed::ReadLink(path)) is None);
}

/// On a calm machine an action succeeds if the disk permits it.
pub proof fn lemma_calm_attempt(w: World, deed: Deed)
    requires
        calm(w.outside),
        w.permits(deed),
    ensures
        w.attempt(deed).0 is Ok,
        w.attempt(deed).1.outside == w.outside,
{
    reveal(World::attempt);
    assert((w.outside.fault)(w.moment, w.nodes, deed) is None);
}

/// On a calm machine a file can be created where there is none.
pub proof fn lemma_calm_create(w: World, path: Seq<u8>)
    requires
        calm(w.outside),
        at(w.nodes, path) is None,
    ensures
        w.create(path).0 is Created,
{
    reveal(World::create);
    assert((w.outside.fault)(w.moment, w.nodes, Deed::CreateNew(path)) is None);
}

/// What is the same on disk is read the same on a calm machine.
pub proof fn lemma_calm_installation(
    before: World,
    after: World,
    paths: Places,
    path: Seq<u8>,
    expected: Option<Channel>,
)
    requires
        calm(before.outside),
        kept(before, after, path),
        kept(before, after, within(path, "bin/nvim"@)),
        kept(before, after, within(path, ".nv-metadata"@)),
        installation_at(before, paths, path, expected) is Ok,
    ensures
        installation_at(after, paths, path, expected) == installation_at(
            before,
            paths,
            path,
            expected,
        ),
{
    reveal(installation_at);
    lemma_calm_sight(before, path);
    lemma_calm_sight(after, path);
    lemma_calm_sight(before, within(path, "bin/nvim"@));
    lemma_calm_sight(after, within(path, "bin/nvim"@));
    let metadata = within(path, ".nv-metadata"@);
    assert(after.text(metadata) is Ok || before.text(metadata) is Err) by {
        reveal(World::text);
    }
    assert(before.text(metadata) is Ok ==> after.text(metadata) == before.text(metadata)) by {
        reveal(World::text);
        assert((before.outside.fault)(
            before.moment,
            before.nodes,
            Deed::ReadText(metadata),
        ) is None);
        assert((after.outside.fault)(after.moment, after.nodes, Deed::ReadText(metadata)) is None);
    }
}

/// Whether a link can be made to point to `target`: what is at its place and at that of its draft
/// does not prevent it.
pub open spec fn slot(
    nodes: Map<Seq<u8>, Node>,
    base: Seq<u8>,
    name: Seq<char>,
    target: Seq<u8>,
) -> bool {
    &&& match at(nodes, below(base, draft_name(name))) {
        None => true,
        Some(Node::Link { target: found }) => same_path(found, target),
        Some(_) => false,
    }
    &&& at(nodes, below(base, name)) matches Some(node) ==> !(node is Directory)
    &&& leaf(nodes, below(base, name))
}

/// On a calm machine a link is replaced if nothing on disk prevents it.
pub proof fn lemma_calm_link(w: World, base: Seq<u8>, name: Seq<char>, target: Seq<u8>)
    requires
        calm(w.outside),
        is_place(base),
        is_name(name),
        slot(w.nodes, base, name, target),
    ensures
        link_replaced(w, below(base, name), target).0 is Ok,
{
    let link = below(base, name);
    let draft = below(base, draft_name(name));
    lemma_draft(base, name);
    lemma_draft_name(name);
    lemma_siblings_apart(base, name, draft_name(name));
    lemma_calm_sight(w, draft);
    match at(w.nodes, draft) {
        None => {
            let deed = Deed::Link(target, draft);
            lemma_calm_attempt(w, deed);
            lemma_linked(w, target, draft);
            lemma_done(w, deed, link);
            let w1 = w.attempt(deed).1;
            assert forall|inner: Seq<u8>|
                w1.nodes.contains_key(inner) && #[trigger] reaches(link, inner) implies inner
                == link by {
                if inner != draft {
                    lemma_done(w, deed, inner);
                    assert(at(w1.nodes, inner) == at(w.nodes, inner));
                }
            }
            lemma_calm_attempt(w1, Deed::Rename(draft, link));
        },
        Some(node) => {
            lemma_calm_target(w, draft, node->target);
            lemma_calm_attempt(w, Deed::Rename(draft, link));
        },
    }
}

/// What is read of a link that selects a release, on a calm machine.
pub proof fn lemma_calm_pointer(w: World, paths: Places, channel: Channel, which: Seq<char>, name: Seq<char>)
    requires
        calm(w.outside),
        at(w.nodes, paths.link_of(channel, which)) matches Some(Node::Link { target }) && same_path(
            target,
            link_target(name),
        ),
        names_release_of(name, channel),
        installation_at(w, paths, within(paths.installs, name), Some(channel)) is Ok,
    ensures
        pointer_of(w, paths, channel, which) == Ok::<Option<Installed>, Seq<char>>(
            Some(installed_as(w, paths, channel, name)),
        ),
{
    reveal(pointer_of);
    let link = paths.link_of(channel, which);
    let target = w.nodes[link]->target;
    lemma_calm_sight(w, link);
    lemma_calm_target(w, link, target);
    lemma_selects(target, name, channel, link);
}

/// The release of a channel in the directory `name`.
pub open spec fn installed_as(w: World, paths: Places, channel: Channel, name: Seq<char>) -> Installed {
    let path = within(paths.installs, name);
    Installed { name, path, record: installation_at(w, paths, path, Some(channel))->Ok_0 }
}

/// Whether a link of a channel selects the release in the directory `name`.
pub open spec fn points_to(
    nodes: Map<Seq<u8>, Node>,
    paths: Places,
    channel: Channel,
    which: Seq<char>,
    name: Seq<char>,
) -> bool {
    at(nodes, paths.link_of(channel, which)) matches Some(Node::Link { target }) && same_path(
        target,
        link_target(name),
    )
}

/// What a channel selects if its links are as a change makes them.
pub open spec fn selected_by(w: World, paths: Places, change: Change) -> Selected {
    Selected {
        current: Some(installed_as(w, paths, change.channel, change.current)),
        previous: match change.previous {
            Some(previous) => Some(installed_as(w, paths, change.channel, previous)),
            None => None,
        },
    }
}

/// Whether the links of a channel are as a change makes them, and the releases are there.
pub open spec fn settled_as(w: World, paths: Places, change: Change) -> bool {
    let channel = change.channel;
    &&& points_to(w.nodes, paths, channel, "current"@, change.current)
    &&& installation_at(w, paths, within(paths.installs, change.current), Some(channel)) is Ok
    &&& match change.previous {
        Some(previous) => points_to(w.nodes, paths, channel, "previous"@, previous)
            && installation_at(w, paths, within(paths.installs, previous), Some(channel)) is Ok,
        None => at(w.nodes, paths.link_of(channel, "previous"@)) is None,
    }
}

/// What a channel reads if its links are as a change makes them, on a calm machine.
pub proof fn lemma_calm_state(w: World, paths: Places, change: Change)
    requires
        calm(w.outside),
        change.valid(),
        settled_as(w, paths, change),
    ensures
        state_of(w, paths, change.channel) == Ok::<Selected, Seq<char>>(
            selected_by(w, paths, change),
        ),
{
    reveal(state_of);
    let channel = change.channel;
    lemma_calm_pointer(w, paths, channel, "current"@, change.current);
    match change.previous {
        Some(previous) => {
            lemma_calm_pointer(w, paths, channel, "previous"@, previous);
        },
        None => {
            reveal(pointer_of);
            lemma_calm_sight(w, paths.link_of(channel, "previous"@));
        },
    }
}

/// Whether what nv reads of a release is the same in two worlds.
pub open spec fn release_kept(before: World, after: World, paths: Places, name: Seq<char>) -> bool {
    let path = within(paths.installs, name);
    &&& kept(before, after, path)
    &&& kept(before, after, within(path, "bin/nvim"@))
    &&& kept(before, after, within(path, ".nv-metadata"@))
}

/// The replacement of a link of a channel leaves the releases as they are.
pub proof fn lemma_release_kept_by_link(
    w: World,
    home: Seq<u8>,
    channel: Channel,
    which: Seq<char>,
    target: Seq<u8>,
    name: Seq<char>,
)
    requires
        absolute(home),
        which == "current"@ || which == "previous"@,
        names_release_of(name, channel),
        link_replaced(w, below(places_below(home).directory_of(channel), which), target).0 is Ok,
    ensures
        release_kept(
            w,
            link_replaced(w, below(places_below(home).directory_of(channel), which), target).1,
            places_below(home),
            name,
        ),
{
    let paths = places_below(home);
    let directory = paths.directory_of(channel);
    let path = within(paths.installs, name);
    lemma_names();
    lemma_channel_places(home, channel);
    lemma_release_parts(home, channel, name);
    lemma_installs_unconcerned(home, channel, path);
    lemma_installs_unconcerned(home, channel, within(path, "bin/nvim"@));
    lemma_installs_unconcerned(home, channel, within(path, ".nv-metadata"@));
    lemma_link_replaced(w, directory, which, target, path);
    lemma_link_replaced(w, directory, which, target, within(path, "bin/nvim"@));
    lemma_link_replaced(w, directory, which, target, within(path, ".nv-metadata"@));
}

/// Whether nothing on disk prevents that a change which has been noted down is finished.
pub open spec fn finishable(w: World, paths: Places, change: Change) -> bool {
    let channel = change.channel;
    let directory = paths.directory_of(channel);
    &&& change.valid()
    &&& at(w.nodes, paths.transaction) matches Some(node) && !(node is Directory)
    &&& installation_at(w, paths, within(paths.installs, change.current), Some(channel)) is Ok
    &&& slot(w.nodes, directory, "current"@, link_target(change.current))
    &&& match change.previous {
        Some(previous) => installation_at(
            w,
            paths,
            within(paths.installs, previous),
            Some(channel),
        ) is Ok && slot(w.nodes, directory, "previous"@, link_target(previous)),
        None => at(w.nodes, below(directory, "previous"@)) is None,
    }
}

/// The names of the links of a channel and of their drafts.
pub proof fn lemma_link_names()
    ensures
        is_name("current"@),
        is_name("previous"@),
        is_name(draft_name("current"@)),
        is_name(draft_name("previous"@)),
        "current"@ != "previous"@,
        "current"@ != draft_name("current"@),
        "current"@ != draft_name("previous"@),
        "previous"@ != draft_name("previous"@),
        draft_name("current"@) != "previous"@,
        draft_name("current"@) != draft_name("previous"@),
{
    lemma_names();
    reveal_strlit("current");
    reveal_strlit("previous");
    lemma_draft_name("current"@);
    lemma_draft_name("previous"@);
    assert("current"@.len() == 7 && "previous"@.len() == 8);
}

/// After the previous release is selected, nothing prevents that the current one is.
proof fn lemma_previous_selected(w: World, home: Seq<u8>, change: Change)
    requires
        absolute(home),
        calm(w.outside),
        finishable(w, places_below(home), change),
        change.previous is Some,
    ensures
        ({
            let paths = places_below(home);
            let directory = paths.directory_of(change.channel);
            let link = below(directory, "previous"@);
            let (replaced, after) = link_replaced(w, link, link_target(change.previous->0));
            &&& replaced is Ok
            &&& after.outside == w.outside
            &&& slot(after.nodes, directory, "current"@, link_target(change.current))
            &&& at(after.nodes, paths.transaction) == at(w.nodes, paths.transaction)
            &&& points_to(after.nodes, paths, change.channel, "previous"@, change.previous->0)
            &&& release_kept(w, after, paths, change.current)
            &&& release_kept(w, after, paths, change.previous->0)
        }),
{
    let paths = places_below(home);
    let channel = change.channel;
    let directory = paths.directory_of(channel);
    let link = below(directory, "previous"@);
    let target = link_target(change.previous->0);
    let current = below(directory, "current"@);
    let draft = below(directory, draft_name("current"@));
    lemma_link_names();
    lemma_channel_places(home, channel);
    lemma_calm_link(w, directory, "previous"@, target);
    let after = link_replaced(w, link, target).1;
    lemma_siblings_apart(directory, "previous"@, draft_name("current"@));
    lemma_siblings_apart(directory, draft_name("previous"@), draft_name("current"@));
    lemma_link_replaced(w, directory, "previous"@, target, current);
    lemma_link_replaced(w, directory, "previous"@, target, draft);
    lemma_link_replaced(w, directory, "previous"@, target, paths.transaction);
    lemma_release_kept_by_link(w, home, channel, "previous"@, target, change.current);
    lemma_release_kept_by_link(w, home, channel, "previous"@, target, change.previous->0);
    assert forall|inner: Seq<u8>| #[trigger]
        after.nodes.contains_key(inner) && reaches(current, inner) implies inner == current by {
        lemma_names_apart(directory, "current"@, "previous"@, inner);
        lemma_names_apart(directory, "current"@, draft_name("previous"@), inner);
        lemma_link_replaced(w, directory, "previous"@, target, inner);
        assert(at(after.nodes, inner) == at(w.nodes, inner));
    }
}

/// Whether nothing on disk prevents that the current release of a change is selected.
pub open spec fn half_done(w: World, paths: Places, change: Change) -> bool {
    let channel = change.channel;
    let directory = paths.directory_of(channel);
    &&& change.valid()
    &&& at(w.nodes, paths.transaction) matches Some(node) && !(node is Directory)
    &&& installation_at(w, paths, within(paths.installs, change.current), Some(channel)) is Ok
    &&& slot(w.nodes, directory, "current"@, link_target(change.current))
    &&& match change.previous {
        Some(previous) => installation_at(
            w,
            paths,
            within(paths.installs, previous),
            Some(channel),
        ) is Ok && points_to(w.nodes, paths, channel, "previous"@, previous),
        None => at(w.nodes, below(directory, "previous"@)) is None,
    }
}

/// What nv reads of a release that is the same on disk is the same.
pub proof fn lemma_release_read(before: World, after: World, paths: Places, channel: Channel, name: Seq<char>)
    requires
        calm(before.outside),
        release_kept(before, after, paths, name),
        installation_at(before, paths, within(paths.installs, name), Some(channel)) is Ok,
    ensures
        installation_at(after, paths, within(paths.installs, name), Some(channel))
            == installation_at(before, paths, within(paths.installs, name), Some(channel)),
        installed_as(after, paths, channel, name) == installed_as(before, paths, channel, name),
{
    lemma_calm_installation(before, after, paths, within(paths.installs, name), Some(channel));
}

/// After the current release is selected, the links are as the change makes them.
proof fn lemma_current_selected(w: World, home: Seq<u8>, change: Change)
    requires
        absolute(home),
        calm(w.outside),
        half_done(w, places_below(home), change),
    ensures
        ({
            let paths = places_below(home);
            let directory = paths.directory_of(change.channel);
            let link = below(directory, "current"@);
            let (replaced, after) = link_replaced(w, link, link_target(change.current));
            &&& replaced is Ok
            &&& after.outside == w.outside
            &&& settled_as(after, paths, change)
            &&& selected_by(after, paths, change) == selected_by(w, paths, change)
            &&& at(after.nodes, paths.transaction) == at(w.nodes, paths.transaction)
        }),
{
    let paths = places_below(home);
    let channel = change.channel;
    let directory = paths.directory_of(channel);
    let link = below(directory, "current"@);
    let target = link_target(change.current);
    let previous = below(directory, "previous"@);
    lemma_link_names();
    lemma_channel_places(home, channel);
    lemma_calm_link(w, directory, "current"@, target);
    let after = link_replaced(w, link, target).1;
    lemma_link_replaced(w, directory, "current"@, target, previous);
    lemma_link_replaced(w, directory, "current"@, target, paths.transaction);
    lemma_release_kept_by_link(w, home, channel, "current"@, target, change.current);
    lemma_release_read(w, after, paths, channel, change.current);
    if let Some(name) = change.previous {
        lemma_release_kept_by_link(w, home, channel, "current"@, target, name);
        lemma_release_read(w, after, paths, channel, name);
    }
}

/// The end of a change on a calm machine.
proof fn lemma_closed_calmly(w: World, home: Seq<u8>, change: Change)
    requires
        absolute(home),
        calm(w.outside),
        change.valid(),
        settled_as(w, places_below(home), change),
        at(w.nodes, places_below(home).transaction) matches Some(node) && !(node is Directory),
    ensures
        ({
            let paths = places_below(home);
            let (closed, after) = change_closed(w, paths, change);
            &&& closed is Ok
            &&& after.outside == w.outside
            &&& settled_as(after, paths, change)
            &&& selected_by(after, paths, change) == selected_by(w, paths, change)
            &&& at(after.nodes, paths.transaction) is None
        }),
{
    let paths = places_below(home);
    let channel = change.channel;
    let directory = paths.directory_of(channel);
    let note = paths.transaction;
    lemma_calm_state(w, paths, change);
    lemma_calm_attempt(w, Deed::SyncDirectory(directory));
    lemma_stored(w, Deed::SyncDirectory(directory));
    let w1 = synced(w, directory).1;
    lemma_calm_attempt(w1, Deed::RemoveFile(note));
    lemma_removed(w1, note);
    let w2 = w1.attempt(Deed::RemoveFile(note)).1;
    lemma_calm_attempt(w2, Deed::SyncDirectory(paths.state));
    lemma_stored(w2, Deed::SyncDirectory(paths.state));
    let after = change_closed(w, paths, change).1;
    lemma_channel_places(home, channel);
    lemma_done(w1, Deed::RemoveFile(note), below(directory, "current"@));
    lemma_done(w1, Deed::RemoveFile(note), below(directory, "previous"@));
    lemma_release_kept_by_note(w1, home, channel, change.current);
    lemma_release_read(w, after, paths, channel, change.current);
    if let Some(name) = change.previous {
        lemma_release_kept_by_note(w1, home, channel, name);
        lemma_release_read(w, after, paths, channel, name);
    }
}

proof fn lemma_release_kept_by_note(w: World, home: Seq<u8>, channel: Channel, name: Seq<char>)
    requires
        absolute(home),
        names_release_of(name, channel),
        w.attempt(Deed::RemoveFile(places_below(home).transaction)).0 is Ok,
    ensures
        release_kept(
            w,
            w.attempt(Deed::RemoveFile(places_below(home).transaction)).1,
            places_below(home),
            name,
        ),
{
    let paths = places_below(home);
    let path = within(paths.installs, name);
    let deed = Deed::RemoveFile(paths.transaction);
    lemma_release_parts(home, channel, name);
    lemma_installs_unconcerned(home, channel, path);
    lemma_installs_unconcerned(home, channel, within(path, "bin/nvim"@));
    lemma_installs_unconcerned(home, channel, within(path, ".nv-metadata"@));
    lemma_done(w, deed, path);
    lemma_done(w, deed, within(path, "bin/nvim"@));
    lemma_done(w, deed, within(path, ".nv-metadata"@));
}

/// On a calm machine a change that has been noted down is finished if nothing on disk prevents it,
/// and the channel then selects the releases that the change names.
pub proof fn finishable_change_is_finished(w: World, home: Seq<u8>, change: Change)
    requires
        absolute(home),
        calm(w.outside),
        finishable(w, places_below(home), change),
    ensures
        ({
            let paths = places_below(home);
            let (finished, after) = change_finished(w, paths, change);
            &&& finished is Ok
            &&& after.outside == w.outside
            &&& state_of(after, paths, change.channel) == Ok::<Selected, Seq<char>>(
                selected_by(w, paths, change),
            )
            &&& settled_as(after, paths, change)
            &&& at(after.nodes, paths.transaction) is None
        }),
{
    let paths = places_below(home);
    let channel = change.channel;
    let directory = paths.directory_of(channel);
    lemma_channel_places(home, channel);
    let w1 = match change.previous {
        Some(previous) => link_replaced(
            w,
            below(directory, "previous"@),
            link_target(previous),
        ).1,
        None => w,
    };
    match change.previous {
        Some(previous) => {
            lemma_previous_selected(w, home, change);
            lemma_release_read(w, w1, paths, channel, change.current);
            lemma_release_read(w, w1, paths, channel, previous);
        },
        None => {
            lemma_calm_sight(w, paths.link_of(channel, "previous"@));
        },
    }
    lemma_current_selected(w1, home, change);
    let w2 = link_replaced(w1, below(directory, "current"@), link_target(change.current)).1;
    lemma_closed_calmly(w2, home, change);
    lemma_calm_state(change_finished(w, paths, change).1, paths, change);
}

/// Whether nothing is at the places that a change of a channel is about but what is in `allowed`.
pub open spec fn occupied(
    nodes: Map<Seq<u8>, Node>,
    paths: Places,
    channel: Channel,
    allowed: Set<Seq<u8>>,
) -> bool {
    forall|path: Seq<u8>| #[trigger]
        nodes.contains_key(path) && concerns(paths, channel, path) ==> allowed.contains(path)
}

/// The links of a channel.
pub open spec fn links(paths: Places, channel: Channel) -> Set<Seq<u8>> {
    set![paths.link_of(channel, "current"@), paths.link_of(channel, "previous"@)]
}

/// Whether no change of a channel is pending and none has left anything behind: only the links
/// themselves are at the places that a change is about.
pub open spec fn tidy(nodes: Map<Seq<u8>, Node>, paths: Places, channel: Channel) -> bool {
    occupied(nodes, paths, channel, links(paths, channel))
}

/// One of the places that a change is about.
pub open spec fn is_concerned(paths: Places, channel: Channel, place: Seq<u8>) -> bool {
    let directory = paths.directory_of(channel);
    ||| place == paths.transaction
    ||| place == transaction_draft(paths)
    ||| place == below(directory, "current"@)
    ||| place == below(directory, "previous"@)
    ||| place == below(directory, draft_name("current"@))
    ||| place == below(directory, draft_name("previous"@))
}

/// What is at the places of a change after something was moved from one of them to another.
proof fn lemma_occupied_moved(
    w: World,
    paths: Places,
    channel: Channel,
    allowed: Set<Seq<u8>>,
    from: Seq<u8>,
    to: Seq<u8>,
)
    requires
        w.attempt(Deed::Rename(from, to)).0 is Ok,
        occupied(w.nodes, paths, channel, allowed.insert(from)),
        is_concerned(paths, channel, from),
        forall|other: Seq<u8>| #[trigger]
            allowed.contains(other) && other != from ==> !reaches(from, other),
    ensures
        occupied(
            w.attempt(Deed::Rename(from, to)).1.nodes,
            paths,
            channel,
            allowed.remove(from).insert(to),
        ),
{
    reveal(World::attempt);
    let after = w.attempt(Deed::Rename(from, to)).1;
    assert forall|path: Seq<u8>| #[trigger]
        after.nodes.contains_key(path) && concerns(paths, channel, path) implies allowed.remove(
        from,
    ).insert(to).contains(path) by {
        if reaches(to, path) {
            let rest = path.skip(to.len() as int);
            let source = from + rest;
            assert(w.nodes.contains_key(source));
            if path != to {
                assert(source.take(from.len() as int) =~= from);
                assert(source[from.len() as int] == path[to.len() as int]);
                assert(reaches(from, source));
                assert(concerns(paths, channel, source));
                assert(allowed.insert(from).contains(source));
            }
        } else {
            assert(w.nodes.contains_key(path) && !reaches(from, path));
        }
    }
}

/// What is at the places of a change after something was added to one of them.
pub proof fn lemma_occupied_added(
    before: World,
    after: World,
    paths: Places,
    channel: Channel,
    allowed: Set<Seq<u8>>,
    place: Seq<u8>,
)
    requires
        occupied(before.nodes, paths, channel, allowed),
        forall|path: Seq<u8>|
            path != place && #[trigger] after.nodes.contains_key(path)
                ==> before.nodes.contains_key(path),
    ensures
        occupied(after.nodes, paths, channel, allowed.insert(place)),
{
}

/// The places that a change of a channel is about are not in one another.
pub proof fn lemma_concerned_apart(home: Seq<u8>, channel: Channel)
    requires
        absolute(home),
    ensures
        ({
            let paths = places_below(home);
            forall|left: Seq<u8>, right: Seq<u8>|
                is_concerned(paths, channel, left) && is_concerned(paths, channel, right) && left
                    != right ==> !(#[trigger] reaches(left, right))
        }),
{
    let paths = places_below(home);
    let directory = paths.directory_of(channel);
    lemma_link_names();
    lemma_draft_name("current"@);
    lemma_draft_name("previous"@);
    lemma_channel_places(home, channel);
    lemma_siblings_apart(directory, "current"@, "previous"@);
    lemma_siblings_apart(directory, "current"@, draft_name("current"@));
    lemma_siblings_apart(directory, "current"@, draft_name("previous"@));
    lemma_siblings_apart(directory, "previous"@, draft_name("current"@));
    lemma_siblings_apart(directory, "previous"@, draft_name("previous"@));
    lemma_siblings_apart(directory, draft_name("current"@), draft_name("previous"@));
    let n = paths.state.len() as int + 1;
    lemma_state_bytes(home, channel);
    lemma_apart(paths.transaction, below(directory, draft_name("current"@)), n);
    lemma_apart(paths.transaction, below(directory, draft_name("previous"@)), n);
    lemma_apart(transaction_draft(paths), below(directory, draft_name("current"@)), n);
    lemma_apart(transaction_draft(paths), below(directory, draft_name("previous"@)), n);
}

/// On a tidy disk, nothing prevents that a link of the channel is replaced.
pub proof fn lemma_tidy_slot(
    nodes: Map<Seq<u8>, Node>,
    home: Seq<u8>,
    channel: Channel,
    name: Seq<char>,
    target: Seq<u8>,
    allowed: Set<Seq<u8>>,
)
    requires
        absolute(home),
        name == "current"@ || name == "previous"@,
        occupied(nodes, places_below(home), channel, allowed),
        forall|path: Seq<u8>| #[trigger]
            allowed.contains(path) ==> is_concerned(places_below(home), channel, path),
        !allowed.contains(below(places_below(home).directory_of(channel), draft_name(name))),
        at(nodes, below(places_below(home).directory_of(channel), name)) matches Some(node) ==> !(
        node is Directory),
    ensures
        slot(nodes, places_below(home).directory_of(channel), name, target),
{
    let paths = places_below(home);
    let directory = paths.directory_of(channel);
    let link = below(directory, name);
    let draft = below(directory, draft_name(name));
    lemma_concerned_apart(home, channel);
    assert(concerns(paths, channel, draft));
    assert forall|inner: Seq<u8>| #[trigger]
        nodes.contains_key(inner) && reaches(link, inner) implies inner == link by {
        assert(concerns(paths, channel, inner));
        assert(allowed.contains(inner));
    }
}

/// Whether nothing on disk prevents a change.
pub open spec fn committable(w: World, paths: Places, change: Change) -> bool {
    let channel = change.channel;
    let current = paths.link_of(channel, "current"@);
    let previous = paths.link_of(channel, "previous"@);
    &&& change.valid()
    &&& tidy(w.nodes, paths, channel)
    &&& installation_at(w, paths, within(paths.installs, change.current), Some(channel)) is Ok
    &&& at(w.nodes, current) matches Some(node) ==> !(node is Directory)
    &&& match change.previous {
        Some(name) => installation_at(w, paths, within(paths.installs, name), Some(channel)) is Ok
            && (at(w.nodes, previous) matches Some(node) ==> !(node is Directory)),
        None => at(w.nodes, previous) is None,
    }
}

/// The note of a change is written down on a calm machine, step by step.
#[verifier::rlimit(60)]
#[verifier::spinoff_prover]
pub proof fn lemma_note_steps(w: World, home: Seq<u8>, change: Change)
    requires
        absolute(home),
        calm(w.outside),
        tidy(w.nodes, places_below(home), change.channel),
    ensures
        ({
            let paths = places_below(home);
            let channel = change.channel;
            let draft = transaction_draft(paths);
            let note = paths.transaction;
            let w1 = w.create(draft).1;
            let w2 = w1.attempt(Deed::Write(draft, change_text(change))).1;
            let w3 = w2.attempt(Deed::SyncFile(draft)).1;
            let w4 = w3.attempt(Deed::Rename(draft, note)).1;
            &&& at(w.nodes, note) is None && at(w.nodes, draft) is None
            &&& w.create(draft).0 is Created
            &&& w1.attempt(Deed::Write(draft, change_text(change))).0 is Ok
            &&& w2.attempt(Deed::SyncFile(draft)).0 is Ok
            &&& w3.attempt(Deed::Rename(draft, note)).0 is Ok
            &&& w4.attempt(Deed::SyncDirectory(paths.state)).0 is Ok
            &&& note_written(w, paths, change).0 is Ok
            &&& occupied(w3.nodes, paths, channel, links(paths, channel).insert(draft))
            &&& occupied(w4.nodes, paths, channel, links(paths, channel).insert(note))
            &&& w1.outside == w.outside && w2.outside == w.outside && w3.outside == w.outside
            &&& w4.outside == w.outside
        }),
{
    let paths = places_below(home);
    let channel = change.channel;
    let draft = transaction_draft(paths);
    let note = paths.transaction;
    let write = Deed::Write(draft, change_text(change));
    lemma_channel_places(home, channel);
    lemma_concerned_apart(home, channel);
    assert(concerns(paths, channel, note) && concerns(paths, channel, draft));
    lemma_calm_create(w, draft);
    lemma_created_file(w, draft, note);
    let w1 = w.create(draft).1;
    lemma_calm_attempt(w1, write);
    let w2 = w1.attempt(write).1;
    lemma_calm_attempt(w2, Deed::SyncFile(draft));
    lemma_stored(w2, Deed::SyncFile(draft));
    let w3 = w2.attempt(Deed::SyncFile(draft)).1;
    assert(forall|path: Seq<u8>|
        path != draft && #[trigger] w3.nodes.contains_key(path) ==> w.nodes.contains_key(path)) by {
        reveal(World::create);
        reveal(World::attempt);
    }
    lemma_occupied_added(w, w3, paths, channel, links(paths, channel), draft);
    lemma_written(w1, draft, change_text(change));
    assert forall|inner: Seq<u8>|
        w3.nodes.contains_key(inner) && #[trigger] reaches(note, inner) implies inner == note by {
        assert(concerns(paths, channel, inner));
    }
    assert(!w3.nodes.contains_key(note));
    lemma_calm_attempt(w3, Deed::Rename(draft, note));
    lemma_occupied_moved(w3, paths, channel, links(paths, channel), draft, note);
    assert(links(paths, channel).remove(draft).insert(note) =~= links(paths, channel).insert(note));
    let w4 = w3.attempt(Deed::Rename(draft, note)).1;
    lemma_calm_attempt(w4, Deed::SyncDirectory(paths.state));
}

/// After a change is noted down, nothing prevents that it is finished.
#[verifier::rlimit(60)]
#[verifier::spinoff_prover]
pub proof fn lemma_noted_calmly(w: World, home: Seq<u8>, change: Change)
    requires
        absolute(home),
        calm(w.outside),
        committable(w, places_below(home), change),
    ensures
        ({
            let paths = places_below(home);
            let (noted, after) = note_written(w, paths, change);
            &&& noted is Ok
            &&& after.outside == w.outside
            &&& finishable(after, paths, change)
            &&& selected_by(after, paths, change) == selected_by(w, paths, change)
            &&& occupied(
                after.nodes,
                paths,
                change.channel,
                links(paths, change.channel).insert(paths.transaction),
            )
        }),
{
    let paths = places_below(home);
    let channel = change.channel;
    let draft = transaction_draft(paths);
    let directory = paths.directory_of(channel);
    let after = note_written(w, paths, change).1;
    let allowed = links(paths, channel).insert(paths.transaction);
    lemma_channel_places(home, channel);
    lemma_note_steps(w, home, change);
    let w3 = w.create(draft).1.attempt(Deed::Write(draft, change_text(change))).1.attempt(
        Deed::SyncFile(draft),
    ).1;
    lemma_stored(
        w3.attempt(Deed::Rename(draft, paths.transaction)).1,
        Deed::SyncDirectory(paths.state),
    );
    lemma_noted(w, home, change, below(directory, "current"@));
    lemma_noted(w, home, change, below(directory, "previous"@));
    lemma_link_names();
    lemma_concerned_apart(home, channel);
    lemma_siblings_apart(directory, "current"@, draft_name("current"@));
    lemma_siblings_apart(directory, "current"@, draft_name("previous"@));
    lemma_siblings_apart(directory, "previous"@, draft_name("current"@));
    lemma_siblings_apart(directory, "previous"@, draft_name("previous"@));
    lemma_note_is_no_draft(home, channel);
    lemma_tidy_slot(
        after.nodes,
        home,
        channel,
        "current"@,
        link_target(change.current),
        allowed,
    );
    lemma_release_kept_by_noting(w, home, change, change.current);
    lemma_release_read(w, after, paths, channel, change.current);
    if let Some(name) = change.previous {
        lemma_tidy_slot(after.nodes, home, channel, "previous"@, link_target(name), allowed);
        lemma_release_kept_by_noting(w, home, change, name);
        lemma_release_read(w, after, paths, channel, name);
    }
}

pub proof fn lemma_note_is_no_draft(home: Seq<u8>, channel: Channel)
    requires
        absolute(home),
    ensures
        ({
            let paths = places_below(home);
            let directory = paths.directory_of(channel);
            &&& paths.transaction != below(directory, draft_name("current"@))
            &&& paths.transaction != below(directory, draft_name("previous"@))
        }),
{
    let paths = places_below(home);
    let directory = paths.directory_of(channel);
    let n = paths.state.len() as int + 1;
    lemma_state_bytes(home, channel);
    lemma_apart(paths.transaction, below(directory, draft_name("current"@)), n);
    lemma_apart(paths.transaction, below(directory, draft_name("previous"@)), n);
}

pub proof fn lemma_release_kept_by_noting(w: World, home: Seq<u8>, change: Change, name: Seq<char>)
    requires
        absolute(home),
        names_release_of(name, change.channel),
        note_written(w, places_below(home), change).0 is Ok,
    ensures
        release_kept(
            w,
            note_written(w, places_below(home), change).1,
            places_below(home),
            name,
        ),
{
    let paths = places_below(home);
    let channel = change.channel;
    let path = within(paths.installs, name);
    lemma_release_parts(home, channel, name);
    lemma_installs_unconcerned(home, channel, path);
    lemma_installs_unconcerned(home, channel, within(path, "bin/nvim"@));
    lemma_installs_unconcerned(home, channel, within(path, ".nv-metadata"@));
    lemma_noted(w, home, change, path);
    lemma_noted(w, home, change, within(path, "bin/nvim"@));
    lemma_noted(w, home, change, within(path, ".nv-metadata"@));
}

/// What is at the places of a change after a link was replaced.
pub proof fn lemma_occupied_linked(
    w: World,
    home: Seq<u8>,
    channel: Channel,
    name: Seq<char>,
    target: Seq<u8>,
    allowed: Set<Seq<u8>>,
)
    requires
        absolute(home),
        name == "current"@ || name == "previous"@,
        link_replaced(w, below(places_below(home).directory_of(channel), name), target).0 is Ok,
        allowed.contains(below(places_below(home).directory_of(channel), name)),
        !allowed.contains(below(places_below(home).directory_of(channel), draft_name(name))),
        forall|path: Seq<u8>| #[trigger]
            allowed.contains(path) ==> is_concerned(places_below(home), channel, path),
        occupied(
            w.nodes,
            places_below(home),
            channel,
            allowed.insert(below(places_below(home).directory_of(channel), draft_name(name))),
        ),
    ensures
        occupied(
            link_replaced(w, below(places_below(home).directory_of(channel), name), target).1.nodes,
            places_below(home),
            channel,
            allowed,
        ),
{
    let paths = places_below(home);
    let directory = paths.directory_of(channel);
    let link = below(directory, name);
    let draft = below(directory, draft_name(name));
    lemma_link_names();
    lemma_channel_places(home, channel);
    lemma_draft(directory, name);
    lemma_concerned_apart(home, channel);
    let w1 = if w.sight(draft) is Absent {
        w.attempt(Deed::Link(target, draft)).1
    } else {
        w
    };
    assert(forall|path: Seq<u8>|
        path != draft && #[trigger] w1.nodes.contains_key(path) ==> w.nodes.contains_key(path)) by {
        reveal(World::attempt);
    }
    lemma_occupied_added(w, w1, paths, channel, allowed.insert(draft), draft);
    assert(allowed.insert(draft).insert(draft) =~= allowed.insert(draft));
    lemma_occupied_moved(w1, paths, channel, allowed, draft, link);
    assert(allowed.remove(draft).insert(link) =~= allowed);
}

/// A change that was finished leaves nothing behind.
pub proof fn lemma_finished_tidily(w: World, home: Seq<u8>, change: Change)
    requires
        absolute(home),
        change_finished(w, places_below(home), change).0 is Ok,
        ({
            let paths = places_below(home);
            let directory = paths.directory_of(change.channel);
            let allowed = links(paths, change.channel).insert(paths.transaction).insert(
                below(directory, draft_name("current"@)),
            );
            occupied(
                w.nodes,
                paths,
                change.channel,
                if change.previous is Some {
                    allowed.insert(below(directory, draft_name("previous"@)))
                } else {
                    allowed
                },
            )
        }),
    ensures
        tidy(change_finished(w, places_below(home), change).1.nodes, places_below(home), change.channel),
{
    let paths = places_below(home);
    let channel = change.channel;
    let directory = paths.directory_of(channel);
    let current = below(directory, "current"@);
    let previous = below(directory, "previous"@);
    let settled = links(paths, channel).insert(paths.transaction);
    let half = settled.insert(below(directory, draft_name("current"@)));
    lemma_link_names();
    lemma_channel_places(home, channel);
    lemma_concerned_apart(home, channel);
    lemma_note_is_no_draft(home, channel);
    lemma_siblings_apart(directory, "current"@, draft_name("current"@));
    lemma_siblings_apart(directory, "current"@, draft_name("previous"@));
    lemma_siblings_apart(directory, "previous"@, draft_name("current"@));
    lemma_siblings_apart(directory, "previous"@, draft_name("previous"@));
    lemma_siblings_apart(directory, draft_name("current"@), draft_name("previous"@));
    let w1 = match change.previous {
        Some(name) => link_replaced(w, previous, link_target(name)).1,
        None => w,
    };
    if let Some(name) = change.previous {
        lemma_occupied_linked(w, home, channel, "previous"@, link_target(name), half);
    }
    let target = link_target(change.current);
    lemma_occupied_linked(w1, home, channel, "current"@, target, settled);
    let w2 = link_replaced(w1, current, target).1;
    let after = change_finished(w, paths, change).1;
    assert forall|path: Seq<u8>| #[trigger]
        after.nodes.contains_key(path) && concerns(paths, channel, path) implies links(
        paths,
        channel,
    ).contains(path) by {
        lemma_closed(w2, paths, change, path);
        if path != paths.transaction {
            assert(at(after.nodes, path) == at(w2.nodes, path));
            assert(settled.contains(path));
        }
    }
}

/// On a calm machine a change is made if nothing on disk prevents it: the channel then selects the
/// releases that the change names, and the change leaves nothing behind.
pub proof fn committable_change_is_made(w: World, home: Seq<u8>, change: Change)
    requires
        absolute(home),
        calm(w.outside),
        committable(w, places_below(home), change),
    ensures
        ({
            let paths = places_below(home);
            let (committed, after) = change_committed(w, paths, change);
            &&& committed is Ok
            &&& after.outside == w.outside
            &&& state_of(after, paths, change.channel) == Ok::<Selected, Seq<char>>(
                selected_by(w, paths, change),
            )
            &&& tidy(after.nodes, paths, change.channel)
            &&& settled_as(after, paths, change)
        }),
{
    let paths = places_below(home);
    lemma_note_steps(w, home, change);
    lemma_calm_sight(w, paths.transaction);
    lemma_calm_sight(w, transaction_draft(paths));
    lemma_noted_calmly(w, home, change);
    let w1 = note_written(w, paths, change).1;
    finishable_change_is_finished(w1, home, change);
    lemma_finished_tidily(w1, home, change);
}

} // verus!
