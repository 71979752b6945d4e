//! What the changes of links promise when they fail, are refused or are completed later.

use vstd::prelude::*;

use crate::calm::{calm, lemma_calm_sight, lemma_concerned_apart};
use crate::changes::{
    committed_change_is_made, concerns, finished_change_is_made, lemma_channel_places, lemma_noted,
};
use crate::channel::Channel;
use crate::disk::{
    at, kept, lemma_attempted, lemma_done, lemma_removed, lemma_stored, orderly, selection,
};
use crate::host::{Deed, Node, Outside, World};
use crate::installation::{state_of, Installed};
use crate::laws::lemma_state_selects;
use crate::locate::{
    below, draft_name, is_name, is_place, lemma_draft, lemma_draft_name, lemma_names,
    lemma_siblings_apart,
};
use crate::metadata::{install_name_read_back, Record};
use crate::path::absolute;
use crate::paths::{install_name, places_below, Places};
use crate::pointers::{
    change_committed, change_recovered, link_replaced, note_written, replacement, transaction_draft,
};
use crate::release::is_release_id;
use crate::separation::lemma_links_spared;
use crate::transaction::{change_in, names_release_of, transaction_read_is_valid, Change};

verus! {

/// After an interrupted change was completed or dropped, nothing of it is left: to complete it once
/// more changes nothing.
pub proof fn second_recovery_changes_nothing(v: World, home: Seq<u8>)
    requires
        absolute(home),
        calm(v.outside),
        change_recovered(v, places_below(home)).0 is Ok,
    ensures
        ({
            let paths = places_below(home);
            let after = change_recovered(v, paths).1;
            &&& at(after.nodes, paths.transaction) is None
            &&& at(after.nodes, transaction_draft(paths)) is None
            &&& change_recovered(after, paths) == (Ok::<(), Seq<char>>(()), after)
        }),
{
    let paths = places_below(home);
    let note = paths.transaction;
    let draft = transaction_draft(paths);
    let after = change_recovered(v, paths).1;
    lemma_calm_sight(v, note);
    lemma_calm_sight(v, draft);
    lemma_note_apart(home);
    let v1 = v.attempt(Deed::RemoveFile(draft)).1;
    if at(v.nodes, draft) is Some {
        lemma_removed(v, draft);
        lemma_done(v, Deed::RemoveFile(draft), note);
    }
    if at(v.nodes, note) is None {
        if at(v.nodes, draft) is Some {
            lemma_stored(v1, Deed::SyncDirectory(paths.state));
        }
    } else {
        let v2 = if at(v.nodes, draft) is Some {
            v1
        } else {
            v
        };
        let change = change_in(v2.text(note)->Ok_0, note)->Ok_0;
        transaction_read_is_valid(v2.text(note)->Ok_0, note);
        finished_change_is_made(v2, home, change);
    }
    lemma_calm_sight(after, note);
    lemma_calm_sight(after, draft);
}

/// The note of a change and its draft are not the same.
proof fn lemma_note_apart(home: Seq<u8>)
    requires
        absolute(home),
    ensures
        places_below(home).transaction != transaction_draft(places_below(home)),
{
    lemma_channel_places(home, Channel::Stable);
    lemma_concerned_apart(home, Channel::Stable);
}

/// The change that is noted down on a disk, if the note can be read.
pub open spec fn noted(v: World, paths: Places) -> Option<Change> {
    match v.text(paths.transaction) {
        Ok(text) => match change_in(text, paths.transaction) {
            Ok(change) => Some(change),
            Err(_) => None,
        },
        Err(_) => None,
    }
}

proof fn lemma_note_read_later(before: World, after: World, paths: Places)
    requires
        calm(before.outside),
        kept(before, after, paths.transaction),
        at(before.nodes, paths.transaction) matches Some(node) && node is File,
    ensures
        after.text(paths.transaction) == before.text(paths.transaction),
{
    let note = paths.transaction;
    reveal(World::text);
    assert((before.outside.fault)(before.moment, before.nodes, Deed::ReadText(note)) is None);
    assert((after.outside.fault)(after.moment, after.nodes, Deed::ReadText(note)) is None);
}

/// To complete an interrupted change of a channel changes nothing but what the change is about; in
/// particular the links of the other channel stay as they are.
pub proof fn recovery_spares_other_channel(v: World, home: Seq<u8>, channel: Channel)
    requires
        absolute(home),
        calm(v.outside),
        change_recovered(v, places_below(home)).0 is Ok,
        noted(v, places_below(home)) matches Some(change) ==> change.channel == channel,
    ensures
        ({
            let paths = places_below(home);
            let after = change_recovered(v, paths).1;
            &&& forall|path: Seq<u8>|
                !concerns(paths, channel, path) ==> #[trigger] at(after.nodes, path) == at(
                    v.nodes,
                    path,
                )
            &&& forall|other: Channel, which: Seq<char>|
                other != channel && (which == "current"@ || which == "previous"@) ==> at(
                    after.nodes,
                    #[trigger] paths.link_of(other, which),
                ) == at(v.nodes, paths.link_of(other, which))
        }),
{
    let paths = places_below(home);
    let note = paths.transaction;
    let draft = transaction_draft(paths);
    let after = change_recovered(v, paths).1;
    lemma_calm_sight(v, note);
    lemma_calm_sight(v, draft);
    lemma_note_apart(home);
    let v1 = v.attempt(Deed::RemoveFile(draft)).1;
    let v2 = if at(v.nodes, draft) is Some {
        v1
    } else {
        v
    };
    assert forall|path: Seq<u8>| path != draft implies #[trigger] at(v2.nodes, path) == at(
        v.nodes,
        path,
    ) by {
        if at(v.nodes, draft) is Some {
            lemma_done(v, Deed::RemoveFile(draft), path);
        }
    }
    if at(v.nodes, draft) is Some {
        lemma_removed(v, draft);
    }
    if at(v.nodes, note) is None {
        if at(v.nodes, draft) is Some {
            lemma_stored(v1, Deed::SyncDirectory(paths.state));
        }
    } else {
        assert(at(v2.nodes, note) == at(v.nodes, note));
        lemma_note_read_later(v, v2, paths);
        let change = change_in(v2.text(note)->Ok_0, note)->Ok_0;
        transaction_read_is_valid(v2.text(note)->Ok_0, note);
        finished_change_is_made(v2, home, change);
    }
    assert forall|path: Seq<u8>| !concerns(paths, channel, path) implies #[trigger] at(
        after.nodes,
        path,
    ) == at(v.nodes, path) by {
        assert(path != draft);
        assert(at(v2.nodes, path) == at(v.nodes, path));
    }
    assert forall|other: Channel, which: Seq<char>|
        other != channel && (which == "current"@ || which == "previous"@) implies at(
        after.nodes,
        #[trigger] paths.link_of(other, which),
    ) == at(v.nodes, paths.link_of(other, which)) by {
        lemma_names();
        lemma_links_spared(home, channel, other, which);
        assert(!concerns(paths, channel, paths.link_of(other, which)));
    }
}

/// While a change is pending, no other one is begun: it is refused, and nothing has changed.
pub proof fn pending_change_blocks(w: World, paths: Places, change: Change)
    requires
        calm(w.outside),
        at(w.nodes, paths.transaction) is Some || at(w.nodes, transaction_draft(paths)) is Some,
    ensures
        change_committed(w, paths, change).0 is Err,
        change_committed(w, paths, change).1 == w,
{
    lemma_calm_sight(w, paths.transaction);
    lemma_calm_sight(w, transaction_draft(paths));
}

/// After a channel was made to select a new release, its links select that release and the one that
/// it had, a state that is read finds these, and the note of the change is gone.
pub proof fn replaced_pointers_select(
    w: World,
    home: Seq<u8>,
    channel: Channel,
    had: Option<Installed>,
    record: Record,
)
    requires
        absolute(home),
        is_release_id(record.release),
        had matches Some(installed) ==> names_release_of(installed.name, channel),
        change_committed(w, places_below(home), replacement(channel, had, record)).0 is Ok,
    ensures
        ({
            let paths = places_below(home);
            let after = change_committed(w, paths, replacement(channel, had, record)).1;
            let name = install_name(channel, record.release);
            let previous = paths.link_of(channel, "previous"@);
            &&& selection(after.nodes, paths, channel, "current"@) == Some(name)
            &&& had matches Some(installed) ==> selection(
                after.nodes,
                paths,
                channel,
                "previous"@,
            ) == Some(installed.name)
            &&& had is None ==> at(after.nodes, previous) == at(w.nodes, previous)
            &&& had is None && calm(w.outside) ==> at(after.nodes, previous) is None
            &&& at(after.nodes, paths.transaction) is None
            &&& at(after.nodes, transaction_draft(paths)) is None
            &&& state_of(after, paths, channel) matches Ok(selected) ==> {
                &&& selected.current matches Some(current) && current.name == name
                &&& had matches Some(installed) ==> (selected.previous matches Some(found)
                    && found.name == installed.name)
                &&& had is None && calm(w.outside) ==> selected.previous is None
            }
        }),
{
    let paths = places_below(home);
    let change = replacement(channel, had, record);
    let after = change_committed(w, paths, change).1;
    let previous = paths.link_of(channel, "previous"@);
    install_name_read_back(channel, record.release);
    committed_change_is_made(w, home, change);
    lemma_state_selects(after, paths, channel);
    if had is None && calm(w.outside) {
        lemma_names();
        let w1 = note_written(w, paths, change).1;
        lemma_noted(w, home, change, previous);
        lemma_channel_places(home, channel);
        lemma_concerned_apart(home, channel);
        lemma_calm_sight(w1, previous);
    }
}

/// Whether a link or a file that cannot be moved stays where it is.
pub open spec fn moves_whole(outside: Outside) -> bool {
    forall|moment: nat, nodes: Map<Seq<u8>, Node>, from: Seq<u8>, to: Seq<u8>|
        (#[trigger] (outside.fault)(moment, nodes, Deed::Rename(from, to))) matches Some(fault)
            ==> fault.nodes == nodes
}

/// A replacement of a link that fails leaves the link as it was.
pub proof fn failed_replacement_keeps_link(
    w: World,
    paths: Places,
    base: Seq<u8>,
    name: Seq<char>,
    target: Seq<u8>,
)
    requires
        is_place(base),
        is_name(name),
        orderly(w.outside, paths),
        moves_whole(w.outside),
        link_replaced(w, below(base, name), target).0 is Err,
    ensures
        kept(w, link_replaced(w, below(base, name), target).1, below(base, name)),
{
    let link = below(base, name);
    let draft = below(base, draft_name(name));
    lemma_draft(base, name);
    lemma_draft_name(name);
    lemma_siblings_apart(base, name, draft_name(name));
    lemma_attempted(w, paths, Deed::Link(target, draft), link);
    let w1 = w.attempt(Deed::Link(target, draft)).1;
    let w0 = if w.sight(draft) is Absent {
        w1
    } else {
        w
    };
    let w2 = w0.attempt(Deed::Rename(draft, link)).1;
    if w0.attempt(Deed::Rename(draft, link)).0 is Err {
        assert(w2.nodes == w0.nodes && w2.outside == w0.outside) by {
            reveal(World::attempt);
        }
        lemma_attempted(w2, paths, Deed::RemoveFile(draft), link);
    }
}

} // verus!
