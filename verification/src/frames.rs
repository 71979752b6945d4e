//! What the commands leave as it was, whether they succeed or not.

use vstd::prelude::*;
use vstd::utf8::*;

use crate::changes::{concerns, lemma_channel_places};
use crate::channel::Channel;
use crate::disk::{kept, lemma_attempted, lemma_created, orderly};
use crate::host::{reaches, Deed, World};
use crate::layout::{
    directories_made, layout_ensured, lock_released, lock_taken, printed, private_made, synced,
    warned,
};
use crate::locate::{
    below, draft_name, is_name, is_place, lemma_draft, lemma_names, lemma_places, lemma_within,
};
use crate::path::absolute;
use crate::paths::{layout, link_target, places_below, within, Places};
use crate::pointers::{
    change_closed, change_committed, change_finished, change_recovered, current_changed,
    draft_published, link_replaced, note_followed, note_written, transaction_draft,
};
use crate::staging::staging_name;
use crate::text::decimal;
use crate::transaction::{change_in, change_text, Change};

verus! {

pub proof fn synced_keeps(w: World, paths: Places, place: Seq<u8>, path: Seq<u8>)
    requires
        orderly(w.outside, paths),
    ensures
        kept(w, synced(w, place).1, path),
{
    lemma_attempted(w, paths, Deed::SyncDirectory(place), path);
}

pub proof fn printed_keeps(w: World, paths: Places, line: Seq<char>, path: Seq<u8>)
    requires
        orderly(w.outside, paths),
    ensures
        kept(w, printed(w, line).1, path),
{
    lemma_attempted(w, paths, Deed::Print(line), path);
}

pub proof fn warned_keeps(w: World, paths: Places, line: Seq<char>, path: Seq<u8>)
    requires
        orderly(w.outside, paths),
    ensures
        kept(w, warned(w, line).1, path),
{
    lemma_attempted(w, paths, Deed::Warn(line), path);
}

pub proof fn private_made_keeps(w: World, paths: Places, place: Seq<u8>, path: Seq<u8>)
    requires
        orderly(w.outside, paths),
        !reaches(path, place),
    ensures
        kept(w, private_made(w, place).1, path),
{
    lemma_attempted(w, paths, Deed::MakePrivateDirectories(place), path);
}

/// The replacement of a link changes nothing beside the link and its draft.
pub proof fn link_replaced_keeps(
    w: World,
    paths: Places,
    base: Seq<u8>,
    name: Seq<char>,
    target: Seq<u8>,
    path: Seq<u8>,
)
    requires
        orderly(w.outside, paths),
        is_place(base),
        is_name(name),
        !reaches(below(base, name), path),
        !reaches(below(base, draft_name(name)), path),
    ensures
        kept(w, link_replaced(w, below(base, name), target).1, path),
{
    let link = below(base, name);
    let draft = below(base, draft_name(name));
    lemma_draft(base, name);
    let w1 = w.attempt(Deed::Link(target, draft)).1;
    lemma_attempted(w, paths, Deed::Link(target, draft), path);
    draft_published_keeps(w, paths, draft, link, target, path);
    draft_published_keeps(w1, paths, draft, link, target, path);
}

proof fn draft_published_keeps(
    w: World,
    paths: Places,
    draft: Seq<u8>,
    link: Seq<u8>,
    target: Seq<u8>,
    path: Seq<u8>,
)
    requires
        orderly(w.outside, paths),
        !reaches(link, path),
        !reaches(draft, path),
    ensures
        kept(w, draft_published(w, draft, link, target).1, path),
{
    lemma_attempted(w, paths, Deed::Rename(draft, link), path);
    let w1 = w.attempt(Deed::Rename(draft, link)).1;
    lemma_attempted(w1, paths, Deed::RemoveFile(draft), path);
}

proof fn change_closed_keeps(w: World, paths: Places, change: Change, path: Seq<u8>)
    requires
        orderly(w.outside, paths),
        path != paths.transaction,
    ensures
        kept(w, change_closed(w, paths, change).1, path),
{
    let directory = paths.directory_of(change.channel);
    synced_keeps(w, paths, directory, path);
    let w1 = synced(w, directory).1;
    lemma_attempted(w1, paths, Deed::RemoveFile(paths.transaction), path);
    let w2 = w1.attempt(Deed::RemoveFile(paths.transaction)).1;
    synced_keeps(w2, paths, paths.state, path);
}

proof fn current_changed_keeps(w: World, home: Seq<u8>, change: Change, path: Seq<u8>)
    requires
        absolute(home),
        orderly(w.outside, places_below(home)),
        !concerns(places_below(home), change.channel, path),
    ensures
        kept(w, current_changed(w, places_below(home), change).1, path),
{
    let paths = places_below(home);
    let channel = change.channel;
    let directory = paths.directory_of(channel);
    let target = link_target(change.current);
    lemma_names();
    lemma_channel_places(home, channel);
    link_replaced_keeps(w, paths, directory, "current"@, target, path);
    let w1 = link_replaced(w, below(directory, "current"@), target).1;
    change_closed_keeps(w1, paths, change, path);
}

/// A change of a channel's links changes nothing beside them, their drafts and the note.
pub proof fn change_finished_keeps(w: World, home: Seq<u8>, change: Change, path: Seq<u8>)
    requires
        absolute(home),
        orderly(w.outside, places_below(home)),
        !concerns(places_below(home), change.channel, path),
    ensures
        kept(w, change_finished(w, places_below(home), change).1, path),
{
    let paths = places_below(home);
    let channel = change.channel;
    let directory = paths.directory_of(channel);
    lemma_names();
    lemma_channel_places(home, channel);
    current_changed_keeps(w, home, change, path);
    if let Some(previous) = change.previous {
        let target = link_target(previous);
        link_replaced_keeps(w, paths, directory, "previous"@, target, path);
        let w1 = link_replaced(w, below(directory, "previous"@), target).1;
        current_changed_keeps(w1, home, change, path);
    }
}

proof fn note_written_keeps(w: World, paths: Places, change: Change, path: Seq<u8>)
    requires
        orderly(w.outside, paths),
        !reaches(paths.transaction, path),
        !reaches(transaction_draft(paths), path),
    ensures
        kept(w, note_written(w, paths, change).1, path),
{
    let draft = transaction_draft(paths);
    let note = paths.transaction;
    let write = Deed::Write(draft, change_text(change));
    lemma_created(w, paths, draft, path);
    let w1 = w.create(draft).1;
    lemma_attempted(w1, paths, write, path);
    let w2 = w1.attempt(write).1;
    lemma_attempted(w2, paths, Deed::RemoveFile(draft), path);
    lemma_attempted(w2, paths, Deed::SyncFile(draft), path);
    let w3 = w2.attempt(Deed::SyncFile(draft)).1;
    lemma_attempted(w3, paths, Deed::RemoveFile(draft), path);
    lemma_attempted(w3, paths, Deed::Rename(draft, note), path);
    let w4 = w3.attempt(Deed::Rename(draft, note)).1;
    synced_keeps(w4, paths, paths.state, path);
}

/// A change of a channel's links changes nothing beside them, their drafts and the note.
pub proof fn change_committed_keeps(w: World, home: Seq<u8>, change: Change, path: Seq<u8>)
    requires
        absolute(home),
        orderly(w.outside, places_below(home)),
        !concerns(places_below(home), change.channel, path),
    ensures
        kept(w, change_committed(w, places_below(home), change).1, path),
{
    let paths = places_below(home);
    note_written_keeps(w, paths, change, path);
    change_finished_keeps(note_written(w, paths, change).1, home, change, path);
}

proof fn note_followed_keeps(w: World, home: Seq<u8>, path: Seq<u8>)
    requires
        absolute(home),
        orderly(w.outside, places_below(home)),
        !concerns(places_below(home), Channel::Stable, path),
        !concerns(places_below(home), Channel::Nightly, path),
    ensures
        kept(w, note_followed(w, places_below(home)).1, path),
{
    let paths = places_below(home);
    if let Ok(text) = w.text(paths.transaction) {
        if let Ok(change) = change_in(text, paths.transaction) {
            change_finished_keeps(w, home, change, path);
        }
    }
}

/// The completion of an interrupted change changes nothing beside the links of a channel, their
/// drafts and the note.
pub proof fn change_recovered_keeps(w: World, home: Seq<u8>, path: Seq<u8>)
    requires
        absolute(home),
        orderly(w.outside, places_below(home)),
        !concerns(places_below(home), Channel::Stable, path),
        !concerns(places_below(home), Channel::Nightly, path),
    ensures
        kept(w, change_recovered(w, places_below(home)).1, path),
{
    let paths = places_below(home);
    let draft = transaction_draft(paths);
    lemma_attempted(w, paths, Deed::RemoveFile(draft), path);
    let w1 = w.attempt(Deed::RemoveFile(draft)).1;
    synced_keeps(w1, paths, paths.state, path);
    note_followed_keeps(w, home, path);
    note_followed_keeps(w1, home, path);
}

/// To take the lock changes nothing else.
pub proof fn lock_taken_keeps(w: World, paths: Places, process: u32, path: Seq<u8>)
    requires
        orderly(w.outside, paths),
        path != paths.lock,
    ensures
        kept(w, lock_taken(w, paths, process).1, path),
{
    let lock = paths.lock;
    let write = Deed::Write(lock, "pid="@ + decimal(process as nat) + "\n"@);
    lemma_created(w, paths, lock, path);
    let w1 = w.create(lock).1;
    lemma_attempted(w1, paths, write, path);
    let w2 = w1.attempt(write).1;
    lemma_attempted(w2, paths, Deed::RemoveFile(lock), path);
    lemma_attempted(w2, paths, Deed::SyncFile(lock), path);
    let w3 = w2.attempt(Deed::SyncFile(lock)).1;
    lemma_attempted(w3, paths, Deed::RemoveFile(lock), path);
}

/// To give the lock back changes nothing else.
pub proof fn lock_released_keeps(w: World, paths: Places, path: Seq<u8>)
    requires
        orderly(w.outside, paths),
        path != paths.lock,
    ensures
        kept(w, lock_released(w, paths).1, path),
{
    lemma_attempted(w, paths, Deed::RemoveFile(paths.lock), path);
    let w1 = w.attempt(Deed::RemoveFile(paths.lock)).1;
    lemma_attempted(w1, paths, Deed::RemoveFile(paths.lock), path);
}

proof fn directories_made_keeps(w: World, paths: Places, places: Seq<Seq<u8>>, path: Seq<u8>)
    requires
        orderly(w.outside, paths),
        forall|k: int| 0 <= k < places.len() ==> !reaches(path, #[trigger] places[k]),
    ensures
        kept(w, directories_made(w, places).1, path),
    decreases places.len(),
{
    if places.len() > 0 {
        private_made_keeps(w, paths, places[0], path);
        assert forall|k: int| 0 <= k < places.skip(1).len() implies !reaches(
            path,
            #[trigger] places.skip(1)[k],
        ) by {
            assert(places.skip(1)[k] == places[k + 1]);
        }
        directories_made_keeps(private_made(w, places[0]).1, paths, places.skip(1), path);
    }
}

/// Whether no directory of the state is at `path` or below it.
pub open spec fn above_nothing(paths: Places, path: Seq<u8>) -> bool {
    forall|k: int| 0 <= k < layout(paths).len() ==> !reaches(path, #[trigger] layout(paths)[k])
}

/// To make the directories of the state changes nothing that is not above them.
pub proof fn layout_ensured_keeps(w: World, paths: Places, path: Seq<u8>)
    requires
        orderly(w.outside, paths),
        above_nothing(paths, path),
    ensures
        kept(w, layout_ensured(w, paths).1, path),
{
    directories_made_keeps(w, paths, layout(paths), path);
}

pub proof fn lemma_reaches_on(top: Seq<u8>, middle: Seq<u8>, path: Seq<u8>)
    requires
        reaches(top, middle),
        reaches(middle, path),
    ensures
        reaches(top, path),
{
    if middle != top && path != middle {
        assert(path.take(middle.len() as int).take(top.len() as int) =~= path.take(
            top.len() as int,
        ));
        assert(path.take(middle.len() as int)[top.len() as int] == path[top.len() as int]);
    }
}

/// Something in a directory, of whatever depth.
pub proof fn lemma_inside(top: Seq<u8>, base: Seq<u8>, text: Seq<char>)
    requires
        reaches(top, base),
        is_place(base),
        is_ascii_chars(text),
        text.len() > 0,
        text[0] != '/',
        text.last() != '/',
        text.last() != '.',
    ensures
        reaches(top, within(base, text)),
        is_place(within(base, text)),
{
    lemma_within(base, text);
    let path = within(base, text);
    assert(path.take(base.len() as int) =~= base);
    assert(path[0] == base[0]);
    lemma_reaches_on(top, base, path);
}

/// A number is written in digits alone.
pub proof fn lemma_decimal(value: nat)
    ensures
        is_ascii_chars(decimal(value)),
        decimal(value).len() > 0,
        forall|k: int| 0 <= k < decimal(value).len() ==> #[trigger] decimal(value)[k] != '/',
        decimal(value).last() != '/',
        decimal(value).last() != '.',
    decreases value,
{
    if value >= 10 {
        lemma_decimal(value / 10);
    }
}

/// A staging directory is in the directory for staging.
pub proof fn lemma_staging(home: Seq<u8>, channel: Channel, process: u32, time: u128)
    requires
        absolute(home),
    ensures
        ({
            let staging = within(
                places_below(home).staging,
                staging_name(channel, process, time),
            );
            reaches(places_below(home).staging, staging) && is_place(staging)
        }),
{
    lemma_places(home);
    lemma_names();
    lemma_decimal(process as nat);
    lemma_decimal(time as nat);
    reveal_strlit("-");
    let name = staging_name(channel, process, time);
    let parts = channel.name() + "-"@ + decimal(process as nat) + "-"@;
    assert(is_ascii_chars(parts));
    assert(name[0] == channel.name()[0]);
    assert(name.last() == decimal(time as nat).last());
    lemma_inside(places_below(home).staging, places_below(home).staging, name);
}

} // verus!
