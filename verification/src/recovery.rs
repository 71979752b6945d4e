//! What an interruption of a change comes to.

use vstd::prelude::*;
use vstd::utf8::*;

use crate::calm::{
    calm, committable, finishable, finishable_change_is_finished, is_concerned, lemma_calm_attempt,
    lemma_calm_installation, lemma_calm_link, lemma_calm_sight, lemma_calm_state, lemma_calm_target,
    lemma_concerned_apart, lemma_finished_tidily, lemma_link_names, lemma_note_is_no_draft,
    lemma_note_steps, lemma_noted_calmly, lemma_occupied_added, lemma_occupied_linked,
    lemma_release_kept_by_link, lemma_release_read, links, occupied, points_to, release_kept,
    selected_by, slot, tidy,
};
use crate::changes::{concerns, lemma_channel_places, lemma_link_replaced, lemma_noted};
use crate::channel::Channel;
use crate::disk::{
    at, kept, lemma_created_file, lemma_done, lemma_linked, lemma_pointer_selects, lemma_removed,
    lemma_stored, lemma_written, touches,
};
use crate::host::{reaches, Deed, Node, World};
use crate::installation::{installation_at, pointer_of, state_of, Selected};
use crate::layout::synced;
use crate::locate::{below, draft_name, lemma_draft, lemma_siblings_apart};
use crate::path::absolute;
use crate::paths::{link_target, places_below, within, Places};
use crate::pointers::{
    change_recovered, committing, current_changing, finishing, link_replaced, note_written, noting,
    replacing, transaction_draft,
};
use crate::separation::{lemma_installs_unconcerned, lemma_release_parts};
use crate::transaction::{change_text, names_release_of, transaction_read_back, Change};

verus! {

/// The places at which something may be while a change is made.
pub open spec fn busy(paths: Places, change: Change) -> Set<Seq<u8>> {
    let directory = paths.directory_of(change.channel);
    let allowed = links(paths, change.channel).insert(paths.transaction).insert(
        below(directory, draft_name("current"@)),
    );
    if change.previous is Some {
        allowed.insert(below(directory, draft_name("previous"@)))
    } else {
        allowed
    }
}

/// Whether a change has been noted down, and nothing on disk prevents that it is finished.
pub open spec fn pending(v: World, paths: Places, change: Change) -> bool {
    let channel = change.channel;
    let directory = paths.directory_of(channel);
    &&& change.valid()
    &&& at(v.nodes, paths.transaction) matches Some(Node::File { contents, .. }) && contents
        == encode_utf8(change_text(change))
    &&& at(v.nodes, transaction_draft(paths)) is None
    &&& occupied(v.nodes, paths, channel, busy(paths, change))
    &&& installation_at(v, paths, within(paths.installs, change.current), Some(channel)) is Ok
    &&& at(v.nodes, below(directory, draft_name("current"@))) matches Some(node) ==> node
        == (Node::Link { target: link_target(change.current) })
    &&& at(v.nodes, below(directory, "current"@)) matches Some(node) ==> !(node is Directory)
    &&& match change.previous {
        Some(name) => {
            &&& installation_at(v, paths, within(paths.installs, name), Some(channel)) is Ok
            &&& at(v.nodes, below(directory, draft_name("previous"@))) matches Some(node) ==> node
                == (Node::Link { target: link_target(name) })
            &&& at(v.nodes, below(directory, "previous"@)) matches Some(node) ==> !(
            node is Directory)
        },
        None => at(v.nodes, below(directory, "previous"@)) is None,
    }
}

/// Whether a link can be made to point to `target`, given what is at the places of a change.
proof fn lemma_busy_slot(
    nodes: Map<Seq<u8>, Node>,
    home: Seq<u8>,
    change: Change,
    name: Seq<char>,
    target: Seq<u8>,
)
    requires
        absolute(home),
        name == "current"@ || name == "previous"@,
        occupied(nodes, places_below(home), change.channel, busy(places_below(home), change)),
        at(
            nodes,
            below(places_below(home).directory_of(change.channel), draft_name(name)),
        ) matches Some(node) ==> node == (Node::Link { target }),
        at(nodes, below(places_below(home).directory_of(change.channel), name)) matches Some(node)
            ==> !(node is Directory),
    ensures
        slot(nodes, places_below(home).directory_of(change.channel), name, target),
{
    let paths = places_below(home);
    let channel = change.channel;
    let link = below(paths.directory_of(channel), name);
    lemma_channel_places(home, channel);
    lemma_concerned_apart(home, channel);
    assert forall|inner: Seq<u8>| #[trigger]
        nodes.contains_key(inner) && reaches(link, inner) implies inner == link by {
        assert(concerns(paths, channel, inner));
        assert(busy(paths, change).contains(inner));
    }
}

proof fn lemma_pending_finishable(v: World, home: Seq<u8>, change: Change)
    requires
        absolute(home),
        pending(v, places_below(home), change),
    ensures
        finishable(v, places_below(home), change),
{
    lemma_busy_slot(v.nodes, home, change, "current"@, link_target(change.current));
    if let Some(name) = change.previous {
        lemma_busy_slot(v.nodes, home, change, "previous"@, link_target(name));
    }
}

/// A change that has been noted down is completed by the next operation, on a calm machine.
pub proof fn pending_change_is_completed(v: World, home: Seq<u8>, change: Change)
    requires
        absolute(home),
        calm(v.outside),
        pending(v, places_below(home), change),
    ensures
        ({
            let paths = places_below(home);
            let (recovered, after) = change_recovered(v, paths);
            &&& recovered is Ok
            &&& state_of(after, paths, change.channel) == Ok::<Selected, Seq<char>>(
                selected_by(v, paths, change),
            )
            &&& tidy(after.nodes, paths, change.channel)
        }),
{
    let paths = places_below(home);
    let note = paths.transaction;
    lemma_calm_sight(v, note);
    lemma_calm_sight(v, transaction_draft(paths));
    assert(v.text(note) == Ok::<Seq<char>, Seq<char>>(change_text(change))) by {
        reveal(World::text);
        assert((v.outside.fault)(v.moment, v.nodes, Deed::ReadText(note)) is None);
        encode_utf8_valid_utf8(change_text(change));
        encode_utf8_decode_utf8(change_text(change));
    }
    transaction_read_back(change, note);
    lemma_pending_finishable(v, home, change);
    finishable_change_is_finished(v, home, change);
    lemma_finished_tidily(v, home, change);
}

/// What a channel reads is the same if its links and its releases are the same on disk.
pub proof fn lemma_state_same(before: World, after: World, paths: Places, channel: Channel)
    requires
        calm(before.outside),
        kept(before, after, paths.link_of(channel, "current"@)),
        kept(before, after, paths.link_of(channel, "previous"@)),
        state_of(before, paths, channel) matches Ok(selected) && (selected.current matches Some(
            current,
        ) ==> release_kept(before, after, paths, current.name)) && (selected.previous matches Some(
            previous,
        ) ==> release_kept(before, after, paths, previous.name)),
    ensures
        state_of(after, paths, channel) == state_of(before, paths, channel),
{
    reveal(state_of);
    lemma_pointer_same(before, after, paths, channel, "current"@);
    lemma_pointer_same(before, after, paths, channel, "previous"@);
}

proof fn lemma_pointer_same(
    before: World,
    after: World,
    paths: Places,
    channel: Channel,
    which: Seq<char>,
)
    requires
        calm(before.outside),
        kept(before, after, paths.link_of(channel, which)),
        pointer_of(before, paths, channel, which) matches Ok(found) && (found matches Some(installed)
            ==> release_kept(before, after, paths, installed.name)),
    ensures
        pointer_of(after, paths, channel, which) == pointer_of(before, paths, channel, which),
{
    let link = paths.link_of(channel, which);
    lemma_pointer_selects(before, paths, channel, which);
    lemma_calm_sight(before, link);
    lemma_calm_sight(after, link);
    if let Some(installed) = pointer_of(before, paths, channel, which)->Ok_0 {
        let target = before.nodes[link]->target;
        lemma_calm_target(before, link, target);
        lemma_calm_target(after, link, target);
        lemma_calm_installation(before, after, paths, installed.path, Some(channel));
    }
    reveal(pointer_of);
}

/// A world with the same disk has the same changes pending.
proof fn lemma_pending_same(before: World, after: World, paths: Places, change: Change)
    requires
        calm(before.outside),
        after.outside == before.outside,
        after.nodes == before.nodes,
        pending(before, paths, change),
    ensures
        pending(after, paths, change),
        selected_by(after, paths, change) == selected_by(before, paths, change),
{
    lemma_release_read(before, after, paths, change.channel, change.current);
    if let Some(name) = change.previous {
        lemma_release_read(before, after, paths, change.channel, name);
    }
}

/// A change that was noted down on a tidy disk is pending.
proof fn lemma_noted_is_pending(w: World, home: Seq<u8>, change: Change)
    requires
        absolute(home),
        calm(w.outside),
        committable(w, places_below(home), change),
    ensures
        ({
            let paths = places_below(home);
            let (noted, after) = note_written(w, paths, change);
            &&& noted is Ok
            &&& after.outside == w.outside
            &&& pending(after, paths, change)
            &&& selected_by(after, paths, change) == selected_by(w, paths, change)
        }),
{
    let paths = places_below(home);
    let channel = change.channel;
    let directory = paths.directory_of(channel);
    let after = note_written(w, paths, change).1;
    lemma_noted_calmly(w, home, change);
    lemma_noted(w, home, change, paths.state);
    lemma_note_is_no_draft(home, channel);
    lemma_link_names();
    lemma_channel_places(home, channel);
    lemma_siblings_apart(directory, "current"@, draft_name("current"@));
    lemma_siblings_apart(directory, "current"@, draft_name("previous"@));
    lemma_siblings_apart(directory, "previous"@, draft_name("current"@));
    lemma_siblings_apart(directory, "previous"@, draft_name("previous"@));
    assert(concerns(paths, channel, below(directory, draft_name("current"@))));
    assert(concerns(paths, channel, below(directory, draft_name("previous"@))));
}

/// The release that a link of a change is to select.
pub open spec fn wanted(change: Change, name: Seq<char>) -> Seq<char> {
    if name == "current"@ {
        change.current
    } else {
        change.previous->0
    }
}

/// The places of a change, one by one.
proof fn lemma_busy(home: Seq<u8>, change: Change, name: Seq<char>)
    requires
        absolute(home),
        name == "current"@ || (name == "previous"@ && change.previous is Some),
    ensures
        ({
            let paths = places_below(home);
            let directory = paths.directory_of(change.channel);
            let link = below(directory, name);
            let draft = below(directory, draft_name(name));
            &&& busy(paths, change).contains(link)
            &&& busy(paths, change).contains(draft)
            &&& draft != link
            &&& draft != paths.transaction && draft != transaction_draft(paths)
            &&& link != paths.transaction && link != transaction_draft(paths)
            &&& forall|path: Seq<u8>| #[trigger]
                busy(paths, change).contains(path) ==> is_concerned(paths, change.channel, path)
        }),
{
    lemma_link_names();
    lemma_channel_places(home, change.channel);
    lemma_note_is_no_draft(home, change.channel);
    lemma_concerned_apart(home, change.channel);
    lemma_siblings_apart(
        places_below(home).directory_of(change.channel),
        name,
        draft_name(name),
    );
}

/// What is kept beside a link and its draft.
pub open spec fn others_kept(
    before: World,
    after: World,
    paths: Places,
    channel: Channel,
    name: Seq<char>,
) -> bool {
    let directory = paths.directory_of(channel);
    let other = if name == "current"@ {
        "previous"@
    } else {
        "current"@
    };
    &&& kept(before, after, below(directory, other))
    &&& kept(before, after, below(directory, draft_name(other)))
    &&& kept(before, after, paths.transaction)
    &&& kept(before, after, transaction_draft(paths))
}

/// The draft of a link is made, and the change is still pending.
proof fn lemma_pending_drafted(v: World, home: Seq<u8>, change: Change, name: Seq<char>)
    requires
        absolute(home),
        calm(v.outside),
        pending(v, places_below(home), change),
        name == "current"@ || (name == "previous"@ && change.previous is Some),
        ({
            let draft = below(
                places_below(home).directory_of(change.channel),
                draft_name(name),
            );
            v.attempt(Deed::Link(link_target(wanted(change, name)), draft)).0 is Ok
        }),
    ensures
        ({
            let paths = places_below(home);
            let draft = below(paths.directory_of(change.channel), draft_name(name));
            let after = v.attempt(Deed::Link(link_target(wanted(change, name)), draft)).1;
            &&& after.outside == v.outside
            &&& pending(after, paths, change)
            &&& selected_by(after, paths, change) == selected_by(v, paths, change)
        }),
{
    let paths = places_below(home);
    let channel = change.channel;
    let directory = paths.directory_of(channel);
    let draft = below(directory, draft_name(name));
    let link = below(directory, name);
    let target = link_target(wanted(change, name));
    let deed = Deed::Link(target, draft);
    let after = v.attempt(deed).1;
    lemma_link_names();
    lemma_busy(home, change, name);
    lemma_concerned_apart(home, channel);
    lemma_channel_places(home, channel);
    lemma_siblings_apart(directory, draft_name("current"@), draft_name("previous"@));
    lemma_siblings_apart(directory, "current"@, draft_name("previous"@));
    lemma_siblings_apart(directory, "previous"@, draft_name("current"@));
    lemma_linked(v, target, draft);
    lemma_done(v, deed, below(directory, "current"@));
    lemma_done(v, deed, below(directory, "previous"@));
    lemma_done(v, deed, paths.transaction);
    lemma_done(v, deed, transaction_draft(paths));
    if name == "current"@ {
        lemma_done(v, deed, below(directory, draft_name("previous"@)));
    } else {
        lemma_done(v, deed, below(directory, draft_name("current"@)));
    }
    assert(forall|path: Seq<u8>|
        path != draft && #[trigger] after.nodes.contains_key(path) ==> v.nodes.contains_key(
            path,
        )) by {
        reveal(World::attempt);
    }
    lemma_occupied_added(v, after, paths, channel, busy(paths, change), draft);
    assert(busy(paths, change).insert(draft) =~= busy(paths, change));
    lemma_release_kept_by_deed(v, home, channel, deed, change.current);
    lemma_release_read(v, after, paths, channel, change.current);
    if let Some(previous) = change.previous {
        lemma_release_kept_by_deed(v, home, channel, deed, previous);
        lemma_release_read(v, after, paths, channel, previous);
    }
}

/// An action at one of the places of a change leaves the releases as they are.
proof fn lemma_release_kept_by_deed(
    w: World,
    home: Seq<u8>,
    channel: Channel,
    deed: Deed,
    name: Seq<char>,
)
    requires
        absolute(home),
        names_release_of(name, channel),
        w.attempt(deed).0 is Ok,
        forall|path: Seq<u8>|
            !concerns(places_below(home), channel, path) ==> !#[trigger] touches(deed, path),
    ensures
        release_kept(w, w.attempt(deed).1, places_below(home), name),
{
    let paths = places_below(home);
    let path = within(paths.installs, name);
    lemma_release_parts(home, channel, name);
    lemma_installs_unconcerned(home, channel, path);
    lemma_installs_unconcerned(home, channel, within(path, "bin/nvim"@));
    lemma_installs_unconcerned(home, channel, within(path, ".nv-metadata"@));
    lemma_done(w, deed, path);
    lemma_done(w, deed, within(path, "bin/nvim"@));
    lemma_done(w, deed, within(path, ".nv-metadata"@));
}

/// A link is replaced, and the change is still pending.
proof fn lemma_pending_replaced(v: World, home: Seq<u8>, change: Change, name: Seq<char>)
    requires
        absolute(home),
        calm(v.outside),
        pending(v, places_below(home), change),
        name == "current"@ || (name == "previous"@ && change.previous is Some),
    ensures
        ({
            let paths = places_below(home);
            let link = below(paths.directory_of(change.channel), name);
            let (replaced, after) = link_replaced(v, link, link_target(wanted(change, name)));
            &&& replaced is Ok
            &&& after.outside == v.outside
            &&& pending(after, paths, change)
            &&& selected_by(after, paths, change) == selected_by(v, paths, change)
            &&& others_kept(v, after, paths, change.channel, name)
            &&& points_to(after.nodes, paths, change.channel, name, wanted(change, name))
            &&& at(
                after.nodes,
                below(paths.directory_of(change.channel), draft_name(name)),
            ) is None
        }),
{
    let paths = places_below(home);
    let channel = change.channel;
    let directory = paths.directory_of(channel);
    let draft = below(directory, draft_name(name));
    let link = below(directory, name);
    let target = link_target(wanted(change, name));
    let after = link_replaced(v, link, target).1;
    lemma_link_names();
    lemma_busy(home, change, name);
    lemma_concerned_apart(home, channel);
    lemma_channel_places(home, channel);
    lemma_siblings_apart(directory, draft_name("current"@), draft_name("previous"@));
    lemma_siblings_apart(directory, "current"@, draft_name("previous"@));
    lemma_siblings_apart(directory, "previous"@, draft_name("current"@));
    lemma_busy_slot(v.nodes, home, change, name, target);
    lemma_calm_link(v, directory, name, target);
    let other = if name == "current"@ {
        "previous"@
    } else {
        "current"@
    };
    lemma_link_replaced(v, directory, name, target, below(directory, other));
    lemma_link_replaced(v, directory, name, target, below(directory, draft_name(other)));
    lemma_link_replaced(v, directory, name, target, paths.transaction);
    lemma_link_replaced(v, directory, name, target, transaction_draft(paths));
    let allowed = busy(paths, change).remove(draft);
    assert(allowed.insert(draft) =~= busy(paths, change));
    lemma_occupied_linked(v, home, channel, name, target, allowed);
    lemma_release_kept_by_link(v, home, channel, name, target, change.current);
    lemma_release_read(v, after, paths, channel, change.current);
    if let Some(previous) = change.previous {
        lemma_release_kept_by_link(v, home, channel, name, target, previous);
        lemma_release_read(v, after, paths, channel, previous);
    }
}

/// Whether a world differs from another at most in the draft of the note, which is not published.
pub open spec fn only_drafted(w: World, v: World, paths: Places) -> bool {
    let draft = transaction_draft(paths);
    &&& v.outside == w.outside
    &&& at(v.nodes, draft) matches Some(node) ==> !(node is Directory)
    &&& forall|path: Seq<u8>|
        path != draft ==> #[trigger] at(v.nodes, path) == at(w.nodes, path)
}

/// A note that was not published is dropped by the next operation, on a calm machine.
#[verifier::rlimit(60)]
#[verifier::spinoff_prover]
proof fn lemma_draft_is_dropped(w: World, v: World, home: Seq<u8>, channel: Channel)
    requires
        absolute(home),
        calm(w.outside),
        tidy(w.nodes, places_below(home), channel),
        state_of(w, places_below(home), channel) is Ok,
        only_drafted(w, v, places_below(home)),
    ensures
        ({
            let paths = places_below(home);
            let (recovered, after) = change_recovered(v, paths);
            &&& recovered is Ok
            &&& state_of(after, paths, channel) == state_of(w, paths, channel)
            &&& tidy(after.nodes, paths, channel)
        }),
{
    let paths = places_below(home);
    let draft = transaction_draft(paths);
    let note = paths.transaction;
    lemma_channel_places(home, channel);
    lemma_concerned_apart(home, channel);
    assert(concerns(paths, channel, note) && concerns(paths, channel, draft));
    assert(at(w.nodes, note) is None && at(w.nodes, draft) is None);
    assert(at(v.nodes, note) == at(w.nodes, note));
    lemma_calm_sight(v, note);
    lemma_calm_sight(v, draft);
    let after = change_recovered(v, paths).1;
    if at(v.nodes, draft) is Some {
        let deed = Deed::RemoveFile(draft);
        lemma_calm_attempt(v, deed);
        lemma_removed(v, draft);
        let v1 = v.attempt(deed).1;
        lemma_calm_attempt(v1, Deed::SyncDirectory(paths.state));
        lemma_stored(v1, Deed::SyncDirectory(paths.state));
        assert forall|path: Seq<u8>| #[trigger] at(after.nodes, path) == at(w.nodes, path) by {
            if path != draft {
                lemma_done(v, deed, path);
                assert(at(v.nodes, path) == at(w.nodes, path));
            }
        }
    } else {
        assert forall|path: Seq<u8>| #[trigger] at(after.nodes, path) == at(w.nodes, path) by {
            if path != draft {
                assert(at(v.nodes, path) == at(w.nodes, path));
            }
        }
    }
    lemma_state_same(w, after, paths, channel);
    assert forall|path: Seq<u8>| #[trigger]
        after.nodes.contains_key(path) && concerns(paths, channel, path) implies links(
        paths,
        channel,
    ).contains(path) by {
        assert(at(after.nodes, path) == at(w.nodes, path));
        assert(w.nodes.contains_key(path));
    }
}

/// Until the note is published, at most its draft has changed.
#[verifier::rlimit(60)]
#[verifier::spinoff_prover]
proof fn lemma_noting(w: World, v: World, home: Seq<u8>, change: Change)
    requires
        absolute(home),
        calm(w.outside),
        committable(w, places_below(home), change),
        noting(w, places_below(home), change, v),
    ensures
        only_drafted(w, v, places_below(home)) || (pending(v, places_below(home), change)
            && v.outside == w.outside && selected_by(v, places_below(home), change)
            == selected_by(w, places_below(home), change)),
{
    let paths = places_below(home);
    let draft = transaction_draft(paths);
    let note = paths.transaction;
    let write = Deed::Write(draft, change_text(change));
    lemma_note_steps(w, home, change);
    let w1 = w.create(draft).1;
    let w2 = w1.attempt(write).1;
    let w3 = w2.attempt(Deed::SyncFile(draft)).1;
    let w4 = w3.attempt(Deed::Rename(draft, note)).1;
    lemma_created_file(w, draft, note);
    lemma_written(w1, draft, change_text(change));
    lemma_stored(w2, Deed::SyncFile(draft));
    if v == w4 {
        let w5 = w4.attempt(Deed::SyncDirectory(paths.state)).1;
        lemma_stored(w4, Deed::SyncDirectory(paths.state));
        lemma_noted_is_pending(w, home, change);
        lemma_pending_same(w5, v, paths, change);
    } else {
        assert forall|path: Seq<u8>| path != draft implies #[trigger] at(v.nodes, path) == at(
            w.nodes,
            path,
        ) by {
            lemma_created_file(w, draft, path);
            lemma_done(w1, write, path);
        }
    }
}

/// At every moment while a link is replaced, the change is pending.
proof fn lemma_replacing(v0: World, v: World, home: Seq<u8>, change: Change, name: Seq<char>)
    requires
        absolute(home),
        calm(v0.outside),
        pending(v0, places_below(home), change),
        name == "current"@ || (name == "previous"@ && change.previous is Some),
        replacing(
            v0,
            below(places_below(home).directory_of(change.channel), name),
            link_target(wanted(change, name)),
            v,
        ),
    ensures
        v.outside == v0.outside,
        pending(v, places_below(home), change),
        selected_by(v, places_below(home), change) == selected_by(v0, places_below(home), change),
{
    let paths = places_below(home);
    let directory = paths.directory_of(change.channel);
    let target = link_target(wanted(change, name));
    let draft = below(directory, draft_name(name));
    lemma_link_names();
    lemma_channel_places(home, change.channel);
    lemma_draft(directory, name);
    lemma_pending_replaced(v0, home, change, name);
    if v != v0 {
        lemma_pending_drafted(v0, home, change, name);
    }
}

/// Whether recovery leads to the releases that a change names.
pub open spec fn leads_to_new(w: World, v: World, paths: Places, change: Change) -> bool {
    let (recovered, after) = change_recovered(v, paths);
    &&& recovered is Ok
    &&& state_of(after, paths, change.channel) == Ok::<Selected, Seq<char>>(
        selected_by(w, paths, change),
    )
    &&& tidy(after.nodes, paths, change.channel)
}

/// Whether recovery leads back to the releases that the channel selected before a change.
pub open spec fn leads_to_old(w: World, v: World, paths: Places, change: Change) -> bool {
    let (recovered, after) = change_recovered(v, paths);
    &&& recovered is Ok
    &&& state_of(after, paths, change.channel) == state_of(w, paths, change.channel)
    &&& tidy(after.nodes, paths, change.channel)
}

/// At every moment while the current release is selected, recovery leads to the new releases.
proof fn lemma_current_changing(v0: World, v: World, home: Seq<u8>, change: Change)
    requires
        absolute(home),
        calm(v0.outside),
        pending(v0, places_below(home), change),
        change.previous matches Some(name) ==> points_to(
            v0.nodes,
            places_below(home),
            change.channel,
            "previous"@,
            name,
        ),
        at(
            v0.nodes,
            below(places_below(home).directory_of(change.channel), draft_name("previous"@)),
        ) is None,
        current_changing(v0, places_below(home), change, v),
    ensures
        leads_to_new(v0, v, places_below(home), change),
{
    let paths = places_below(home);
    let channel = change.channel;
    let directory = paths.directory_of(channel);
    let link = below(directory, "current"@);
    let target = link_target(change.current);
    lemma_link_names();
    lemma_channel_places(home, channel);
    if replacing(v0, link, target, v) {
        lemma_replacing(v0, v, home, change, "current"@);
        pending_change_is_completed(v, home, change);
    } else {
        lemma_pending_replaced(v0, home, change, "current"@);
        let w1 = link_replaced(v0, link, target).1;
        let w2 = synced(w1, directory).1;
        lemma_calm_attempt(w1, Deed::SyncDirectory(directory));
        lemma_stored(w1, Deed::SyncDirectory(directory));
        lemma_pending_same(w1, w2, paths, change);
        if v == w1 || v == w2 {
            pending_change_is_completed(v, home, change);
        } else {
            lemma_unnoted(w2, home, change);
        }
    }
}

/// After the note was removed, there is nothing to complete and the releases are the new ones.
proof fn lemma_unnoted(v0: World, home: Seq<u8>, change: Change)
    requires
        absolute(home),
        calm(v0.outside),
        pending(v0, places_below(home), change),
        points_to(
            v0.nodes,
            places_below(home),
            change.channel,
            "current"@,
            change.current,
        ),
        change.previous matches Some(name) ==> points_to(
            v0.nodes,
            places_below(home),
            change.channel,
            "previous"@,
            name,
        ),
        at(
            v0.nodes,
            below(places_below(home).directory_of(change.channel), draft_name("previous"@)),
        ) is None,
        at(
            v0.nodes,
            below(places_below(home).directory_of(change.channel), draft_name("current"@)),
        ) is None,
        v0.attempt(Deed::RemoveFile(places_below(home).transaction)).0 is Ok,
    ensures
        leads_to_new(
            v0,
            v0.attempt(Deed::RemoveFile(places_below(home).transaction)).1,
            places_below(home),
            change,
        ),
{
    let paths = places_below(home);
    let channel = change.channel;
    let directory = paths.directory_of(channel);
    let note = paths.transaction;
    let deed = Deed::RemoveFile(note);
    let v = v0.attempt(deed).1;
    lemma_channel_places(home, channel);
    lemma_removed(v0, note);
    lemma_done(v0, deed, transaction_draft(paths));
    lemma_calm_sight(v, note);
    lemma_calm_sight(v, transaction_draft(paths));
    assert(change_recovered(v, paths).1 == v);
    lemma_done(v0, deed, below(directory, "current"@));
    lemma_done(v0, deed, below(directory, "previous"@));
    lemma_release_kept_by_deed(v0, home, channel, deed, change.current);
    lemma_release_read(v0, v, paths, channel, change.current);
    if let Some(name) = change.previous {
        lemma_release_kept_by_deed(v0, home, channel, deed, name);
        lemma_release_read(v0, v, paths, channel, name);
    }
    lemma_calm_state(v, paths, change);
    assert forall|path: Seq<u8>| #[trigger]
        v.nodes.contains_key(path) && concerns(paths, channel, path) implies links(
        paths,
        channel,
    ).contains(path) by {
        if path != note {
            lemma_done(v0, deed, path);
            assert(at(v.nodes, path) == at(v0.nodes, path));
            assert(busy(paths, change).contains(path));
        }
    }
}

/// At every moment while a change that has been noted down is made, recovery leads to the new
/// releases.
proof fn lemma_finishing(v0: World, v: World, home: Seq<u8>, change: Change)
    requires
        absolute(home),
        calm(v0.outside),
        pending(v0, places_below(home), change),
        finishing(v0, places_below(home), change, v),
    ensures
        leads_to_new(v0, v, places_below(home), change),
{
    let paths = places_below(home);
    let channel = change.channel;
    let directory = paths.directory_of(channel);
    lemma_link_names();
    lemma_channel_places(home, channel);
    if v == v0 {
        pending_change_is_completed(v, home, change);
    } else {
        match change.previous {
            Some(name) => {
                let link = below(directory, "previous"@);
                if replacing(v0, link, link_target(name), v) {
                    lemma_replacing(v0, v, home, change, "previous"@);
                    pending_change_is_completed(v, home, change);
                } else {
                    lemma_pending_replaced(v0, home, change, "previous"@);
                    let w1 = link_replaced(v0, link, link_target(name)).1;
                    lemma_current_changing(w1, v, home, change);
                }
            },
            None => {
                lemma_no_previous_draft(v0, home, change);
                lemma_current_changing(v0, v, home, change);
            },
        }
    }
}

proof fn lemma_no_previous_draft(v: World, home: Seq<u8>, change: Change)
    requires
        absolute(home),
        pending(v, places_below(home), change),
        change.previous is None,
    ensures
        at(
            v.nodes,
            below(places_below(home).directory_of(change.channel), draft_name("previous"@)),
        ) is None,
{
    let paths = places_below(home);
    let channel = change.channel;
    let directory = paths.directory_of(channel);
    let draft = below(directory, draft_name("previous"@));
    lemma_link_names();
    lemma_channel_places(home, channel);
    lemma_note_is_no_draft(home, channel);
    lemma_siblings_apart(directory, "current"@, draft_name("previous"@));
    lemma_siblings_apart(directory, "previous"@, draft_name("previous"@));
    lemma_siblings_apart(directory, draft_name("current"@), draft_name("previous"@));
    assert(concerns(paths, channel, draft));
}

/// A change may be interrupted at any moment. The next operation then leads either back to the
/// releases that the channel selected before, or on to those that the change names, and leaves
/// nothing of the change behind.
pub proof fn interrupted_change_is_recovered(w: World, v: World, home: Seq<u8>, change: Change)
    requires
        absolute(home),
        calm(w.outside),
        committable(w, places_below(home), change),
        state_of(w, places_below(home), change.channel) is Ok,
        committing(w, places_below(home), change, v),
    ensures
        leads_to_old(w, v, places_below(home), change) || leads_to_new(
            w,
            v,
            places_below(home),
            change,
        ),
{
    let paths = places_below(home);
    if noting(w, paths, change, v) {
        lemma_noting(w, v, home, change);
        if only_drafted(w, v, paths) {
            lemma_draft_is_dropped(w, v, home, change.channel);
        } else {
            pending_change_is_completed(v, home, change);
        }
    } else {
        lemma_noted_is_pending(w, home, change);
        let w1 = note_written(w, paths, change).1;
        lemma_finishing(w1, v, home, change);
    }
}

} // verus!
