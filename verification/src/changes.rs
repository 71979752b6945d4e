//! What a change of a channel's links comes to.

use vstd::prelude::*;
use vstd::utf8::*;

use crate::channel::Channel;
use crate::disk::{
    at, kept, lemma_created_file, lemma_done, lemma_linked, lemma_pointer_selects, lemma_removed,
    lemma_renamed, lemma_stored, lemma_written, selection,
};
use crate::host::{reaches, Deed, Node, World};
use crate::installation::{channel_target, state_of};
use crate::layout::synced;
use crate::locate::{
    ascii, below, draft_name, is_name, is_place, lemma_apart, lemma_draft, lemma_draft_name,
    lemma_names, lemma_places, lemma_sibling, lemma_siblings_apart, link_selects_its_release,
};
use crate::path::{absolute, same_path};
use crate::paths::{link_target, places_below, Places};
use crate::pointers::{
    change_closed, change_committed, change_finished, current_changed, link_replaced, note_written,
    transaction_draft,
};
use crate::transaction::{change_text, names_release_of, Change};

verus! {

/// A link that was replaced has its new target, and nothing beside it and its draft has changed.
pub proof fn lemma_link_replaced(
    w: World,
    base: Seq<u8>,
    name: Seq<char>,
    target: Seq<u8>,
    path: Seq<u8>,
)
    requires
        is_place(base),
        is_name(name),
        link_replaced(w, below(base, name), target).0 is Ok,
    ensures
        ({
            let after = link_replaced(w, below(base, name), target).1;
            &&& after.outside == w.outside
            &&& at(after.nodes, below(base, name)) matches Some(Node::Link { target: found })
                && same_path(found, target)
            &&& at(after.nodes, below(base, draft_name(name))) is None
            &&& !reaches(below(base, name), path) && !reaches(below(base, draft_name(name)), path)
                ==> kept(w, after, path)
        }),
{
    let link = below(base, name);
    let draft = below(base, draft_name(name));
    lemma_draft(base, name);
    lemma_draft_name(name);
    lemma_siblings_apart(base, name, draft_name(name));
    let w1 = if w.sight(draft) is Absent {
        w.attempt(Deed::Link(target, draft)).1
    } else {
        w
    };
    if w.sight(draft) is Absent {
        lemma_linked(w, target, draft);
        if path != draft {
            lemma_done(w, Deed::Link(target, draft), path);
        }
    } else {
        reveal(World::target);
    }
    lemma_renamed(w1, draft, link);
    if !reaches(link, path) && !reaches(draft, path) {
        lemma_done(w1, Deed::Rename(draft, link), path);
    }
}

/// The places that a change of a channel is about.
pub open spec fn concerns(paths: Places, channel: Channel, path: Seq<u8>) -> bool {
    let directory = paths.directory_of(channel);
    ||| reaches(paths.transaction, path)
    ||| reaches(transaction_draft(paths), path)
    ||| reaches(below(directory, "current"@), path)
    ||| reaches(below(directory, "previous"@), path)
    ||| reaches(below(directory, draft_name("current"@)), path)
    ||| reaches(below(directory, draft_name("previous"@)), path)
}

/// The links of a channel and the note of a change.
pub proof fn lemma_channel_places(home: Seq<u8>, channel: Channel)
    requires
        absolute(home),
    ensures
        ({
            let paths = places_below(home);
            let directory = paths.directory_of(channel);
            &&& directory == below(paths.channels, channel.name())
            &&& is_place(directory)
            &&& paths.link_of(channel, "current"@) == below(directory, "current"@)
            &&& paths.link_of(channel, "previous"@) == below(directory, "previous"@)
            &&& transaction_draft(paths) == below(paths.state, ".pointer.transaction.nv-new"@)
            &&& !reaches(below(directory, "current"@), below(directory, "previous"@))
            &&& !reaches(below(directory, "previous"@), below(directory, "current"@))
            &&& !reaches(below(directory, draft_name("current"@)), below(directory, "previous"@))
            &&& !reaches(below(directory, draft_name("previous"@)), below(directory, "current"@))
            &&& !reaches(paths.transaction, below(directory, "current"@))
            &&& !reaches(paths.transaction, below(directory, "previous"@))
            &&& !reaches(below(directory, "current"@), paths.transaction)
            &&& !reaches(below(directory, "previous"@), paths.transaction)
            &&& !reaches(below(directory, draft_name("current"@)), paths.transaction)
            &&& !reaches(below(directory, draft_name("previous"@)), paths.transaction)
            &&& !reaches(paths.transaction, transaction_draft(paths))
            &&& !reaches(transaction_draft(paths), paths.transaction)
            &&& !reaches(below(directory, "current"@), transaction_draft(paths))
            &&& !reaches(below(directory, "previous"@), transaction_draft(paths))
            &&& !reaches(below(directory, draft_name("current"@)), transaction_draft(paths))
            &&& !reaches(below(directory, draft_name("previous"@)), transaction_draft(paths))
            &&& !reaches(transaction_draft(paths), below(directory, "current"@))
            &&& !reaches(transaction_draft(paths), below(directory, "previous"@))
        }),
{
    let paths = places_below(home);
    let directory = paths.directory_of(channel);
    lemma_places(home);
    lemma_names();
    reveal_strlit("channels");
    reveal_strlit("pointer.transaction");
    reveal_strlit(".pointer.transaction.nv-new");
    reveal_strlit("current");
    reveal_strlit("previous");
    reveal_strlit(".");
    lemma_draft(paths.channels, channel.name());
    lemma_draft(directory, "current"@);
    lemma_draft(directory, "previous"@);
    lemma_sibling(paths.state, "pointer.transaction"@, ".pointer.transaction.nv-new"@);
    assert("current"@[0] == 'c' && "previous"@[0] == 'p');
    assert(draft_name("current"@)[0] == '.' && draft_name("previous"@)[0] == '.');
    lemma_siblings_apart(directory, "current"@, "previous"@);
    lemma_siblings_apart(directory, draft_name("current"@), "previous"@);
    lemma_siblings_apart(directory, draft_name("previous"@), "current"@);
    let n = paths.state.len() as int + 1;
    lemma_byte(paths.state, "channels"@);
    lemma_byte(paths.state, "pointer.transaction"@);
    lemma_byte(paths.state, ".pointer.transaction.nv-new"@);
    let note = paths.transaction;
    let draft = transaction_draft(paths);
    assert(note[n] == 112 && draft[n] == 46 && paths.channels[n] == 99);
    let names = seq!["current"@, "previous"@, draft_name("current"@), draft_name("previous"@)];
    assert forall|k: int| 0 <= k < 4 implies !reaches(note, below(directory, #[trigger] names[k]))
        && !reaches(below(directory, names[k]), note) && !reaches(
        draft,
        below(directory, names[k]),
    ) && !reaches(below(directory, names[k]), draft) by {
        let link = below(directory, names[k]);
        assert(directory[n] == paths.channels[n]);
        assert(link[n] == directory[n]);
        lemma_apart(note, link, n);
        lemma_apart(draft, link, n);
    }
    assert(names[0] == "current"@ && names[1] == "previous"@);
    assert(names[2] == draft_name("current"@) && names[3] == draft_name("previous"@));
    lemma_apart(note, draft, n);
}

/// The first byte of a name behind the directory that it is in.
pub proof fn lemma_byte(base: Seq<u8>, text: Seq<char>)
    requires
        text.len() > 0,
    ensures
        below(base, text)[base.len() as int + 1] == text[0] as u8,
        below(base, text).len() == base.len() + 1 + text.len(),
{
    assert(ascii(text)[0] == text[0] as u8);
}

/// Whether a change names releases of its channel.
pub open spec fn names_releases(change: Change) -> bool {
    &&& names_release_of(change.current, change.channel)
    &&& change.previous matches Some(previous) ==> names_release_of(previous, change.channel)
}

/// A link whose target is as nv makes it selects the release that it was made for.
pub proof fn lemma_selects(target: Seq<u8>, name: Seq<char>, channel: Channel, link: Seq<u8>)
    requires
        names_release_of(name, channel),
        same_path(target, link_target(name)),
    ensures
        channel_target(target, channel, link) == Ok::<Seq<char>, Seq<char>>(name),
{
    link_selects_its_release(name, channel, link);
}

/// After the end of a change, its note is gone and nothing else has changed.
pub proof fn lemma_closed(w: World, paths: Places, change: Change, path: Seq<u8>)
    requires
        change_closed(w, paths, change).0 is Ok,
    ensures
        at(change_closed(w, paths, change).1.nodes, paths.transaction) is None,
        path != paths.transaction ==> kept(w, change_closed(w, paths, change).1, path),
        change_closed(w, paths, change).1.outside == w.outside,
        state_of(w, paths, change.channel) is Ok,
{
    let w1 = synced(w, paths.directory_of(change.channel)).1;
    lemma_stored(w, Deed::SyncDirectory(paths.directory_of(change.channel)));
    lemma_removed(w1, paths.transaction);
    let w2 = w1.attempt(Deed::RemoveFile(paths.transaction)).1;
    if path != paths.transaction {
        lemma_done(w1, Deed::RemoveFile(paths.transaction), path);
    }
    lemma_stored(w2, Deed::SyncDirectory(paths.state));
}

proof fn lemma_current(w: World, home: Seq<u8>, change: Change, path: Seq<u8>)
    requires
        absolute(home),
        names_releases(change),
        current_changed(w, places_below(home), change).0 is Ok,
    ensures
        ({
            let paths = places_below(home);
            let directory = paths.directory_of(change.channel);
            let after = current_changed(w, paths, change).1;
            &&& after.outside == w.outside
            &&& selection(after.nodes, paths, change.channel, "current"@) == Some(change.current)
            &&& at(after.nodes, paths.transaction) is None
            &&& at(after.nodes, below(directory, draft_name("current"@))) is None
            &&& !reaches(below(directory, "current"@), path) && !reaches(
                below(directory, draft_name("current"@)),
                path,
            ) && path != paths.transaction ==> kept(w, after, path)
        }),
{
    let paths = places_below(home);
    let channel = change.channel;
    let directory = paths.directory_of(channel);
    let link = below(directory, "current"@);
    let draft = below(directory, draft_name("current"@));
    let target = link_target(change.current);
    lemma_names();
    lemma_channel_places(home, channel);
    lemma_link_replaced(w, directory, "current"@, target, path);
    let w1 = link_replaced(w, link, target).1;
    lemma_closed(w1, paths, change, path);
    lemma_closed(w1, paths, change, link);
    lemma_closed(w1, paths, change, draft);
    lemma_selects(w1.nodes[link]->target, change.current, channel, link);
}

/// What a change that was made comes to.
pub open spec fn made(before: World, after: World, paths: Places, change: Change) -> bool {
    let channel = change.channel;
    let previous = paths.link_of(channel, "previous"@);
    &&& after.outside == before.outside
    &&& selection(after.nodes, paths, channel, "current"@) == Some(change.current)
    &&& match change.previous {
        Some(name) => selection(after.nodes, paths, channel, "previous"@) == Some(name),
        None => at(after.nodes, previous) == at(before.nodes, previous),
    }
    &&& at(after.nodes, paths.transaction) is None
    &&& forall|path: Seq<u8>|
        !concerns(paths, channel, path) ==> #[trigger] at(after.nodes, path) == at(
            before.nodes,
            path,
        )
}

/// A change that was noted down and finished is made: the links select the releases that the change
/// names, the note is gone, and nothing else on disk has changed.
pub proof fn finished_change_is_made(w: World, home: Seq<u8>, change: Change)
    requires
        absolute(home),
        names_releases(change),
        change_finished(w, places_below(home), change).0 is Ok,
    ensures
        made(
            w,
            change_finished(w, places_below(home), change).1,
            places_below(home),
            change,
        ),
        at(
            change_finished(w, places_below(home), change).1.nodes,
            transaction_draft(places_below(home)),
        ) == at(w.nodes, transaction_draft(places_below(home))),
        change.valid(),
{
    let paths = places_below(home);
    let channel = change.channel;
    let directory = paths.directory_of(channel);
    let link = below(directory, "previous"@);
    let note_draft = transaction_draft(paths);
    lemma_names();
    lemma_channel_places(home, channel);
    let after = change_finished(w, paths, change).1;
    match change.previous {
        Some(previous) => {
            let target = link_target(previous);
            let w1 = link_replaced(w, link, target).1;
            lemma_link_replaced(w, directory, "previous"@, target, note_draft);
            lemma_current(w1, home, change, link);
            lemma_current(w1, home, change, note_draft);
            lemma_selects(w1.nodes[link]->target, previous, channel, link);
            let current = below(directory, "current"@);
            let w2 = link_replaced(w1, current, link_target(change.current)).1;
            lemma_link_replaced(w1, directory, "current"@, link_target(change.current), link);
            lemma_closed(w2, paths, change, link);
            lemma_selects(w2.nodes[current]->target, change.current, channel, current);
            reveal(state_of);
            lemma_pointer_selects(w2, paths, channel, "current"@);
            lemma_pointer_selects(w2, paths, channel, "previous"@);
            assert forall|path: Seq<u8>| !concerns(paths, channel, path) implies #[trigger] at(
                after.nodes,
                path,
            ) == at(w.nodes, path) by {
                lemma_link_replaced(w, directory, "previous"@, target, path);
                lemma_current(w1, home, change, path);
            }
        },
        None => {
            lemma_current(w, home, change, link);
            lemma_current(w, home, change, note_draft);
            assert forall|path: Seq<u8>| !concerns(paths, channel, path) implies #[trigger] at(
                after.nodes,
                path,
            ) == at(w.nodes, path) by {
                lemma_current(w, home, change, path);
            }
        },
    }
}

/// A change that was noted down is in the note, and nothing else has changed.
pub proof fn lemma_noted(w: World, home: Seq<u8>, change: Change, path: Seq<u8>)
    requires
        absolute(home),
        note_written(w, places_below(home), change).0 is Ok,
    ensures
        ({
            let paths = places_below(home);
            let after = note_written(w, paths, change).1;
            &&& after.outside == w.outside
            &&& at(after.nodes, paths.transaction) matches Some(Node::File { contents, .. })
                && contents == encode_utf8(change_text(change))
            &&& at(after.nodes, transaction_draft(paths)) is None
            &&& !reaches(paths.transaction, path) && !reaches(transaction_draft(paths), path)
                ==> kept(w, after, path)
        }),
{
    let paths = places_below(home);
    let draft = transaction_draft(paths);
    let note = paths.transaction;
    lemma_channel_places(home, change.channel);
    let w1 = w.create(draft).1;
    lemma_created_file(w, draft, path);
    let write = Deed::Write(draft, change_text(change));
    let w2 = w1.attempt(write).1;
    lemma_written(w1, draft, change_text(change));
    if path != draft {
        lemma_done(w1, write, path);
    }
    let w3 = w2.attempt(Deed::SyncFile(draft)).1;
    lemma_stored(w2, Deed::SyncFile(draft));
    let w4 = w3.attempt(Deed::Rename(draft, note)).1;
    lemma_renamed(w3, draft, note);
    if !reaches(note, path) && !reaches(draft, path) {
        lemma_done(w3, Deed::Rename(draft, note), path);
    }
    lemma_stored(w4, Deed::SyncDirectory(paths.state));
}

/// A change that was committed is made: the links select the releases that the change names, the
/// note is gone, and nothing else on disk has changed.
pub proof fn committed_change_is_made(w: World, home: Seq<u8>, change: Change)
    requires
        absolute(home),
        names_releases(change),
        change_committed(w, places_below(home), change).0 is Ok,
    ensures
        made(
            w,
            change_committed(w, places_below(home), change).1,
            places_below(home),
            change,
        ),
        at(
            change_committed(w, places_below(home), change).1.nodes,
            transaction_draft(places_below(home)),
        ) is None,
        change.valid(),
{
    let paths = places_below(home);
    let channel = change.channel;
    let directory = paths.directory_of(channel);
    let after = change_committed(w, paths, change).1;
    let w1 = note_written(w, paths, change).1;
    lemma_channel_places(home, channel);
    lemma_noted(w, home, change, below(directory, "previous"@));
    finished_change_is_made(w1, home, change);
    assert forall|path: Seq<u8>| !concerns(paths, channel, path) implies #[trigger] at(
        after.nodes,
        path,
    ) == at(w.nodes, path) by {
        lemma_noted(w, home, change, path);
        assert(at(after.nodes, path) == at(w1.nodes, path));
    }
}

} // verus!
