//! What becomes of a change that an interruption has left half made.

use vstd::prelude::*;
use vstd::utf8::*;

use crate::calm::{calm, lemma_calm_installation, links};
use crate::changes::{concerns, lemma_channel_places};
use crate::channel::Channel;
use crate::disk::{at, kept, orderly};
use crate::frames::lock_taken_keeps;
use crate::host::{reaches, World};
use crate::installation::{installation_at, state_of};
use crate::laws_locked::{lemma_lock_spared, lemma_lock_taken_calmly};
use crate::laws_succeed::same_but_lock;
use crate::layout::{lock_released, lock_taken};
use crate::locate::{below, draft_name, lemma_apart, lemma_names};
use crate::path::absolute;
use crate::paths::{places_below, within, Places};
use crate::pointers::{change_recovered, transaction_draft};
use crate::programs::Setting;
use crate::recovery::{busy, pending, pending_change_is_completed};
use crate::run::{locked, operated, Operation};
use crate::separation::{lemma_link_place, lemma_release_parts, lemma_state_bytes};
use crate::transaction::{names_release_of, Change};

verus! {

/// Whether a channel selects what a change is to let it select.
pub open spec fn selects_as_noted(w: World, paths: Places, change: Change) -> bool {
    state_of(w, paths, change.channel) matches Ok(selected) && {
        &&& selected.current matches Some(current) && current.name == change.current
        &&& match change.previous {
            Some(name) => selected.previous matches Some(previous) && previous.name == name,
            None => selected.previous is None,
        }
    }
}

/// The lock changes nothing about a pending change.
proof fn lemma_pending_held(before: World, after: World, home: Seq<u8>, change: Change)
    requires
        absolute(home),
        calm(before.outside),
        same_but_lock(before, after, places_below(home)),
        pending(before, places_below(home), change),
    ensures
        pending(after, places_below(home), change),
{
    let paths = places_below(home);
    let channel = change.channel;
    let directory = paths.directory_of(channel);
    lemma_lock_spared(home, channel);
    lemma_channel_places(home, channel);
    assert(reaches(paths.transaction, paths.transaction));
    assert(reaches(transaction_draft(paths), transaction_draft(paths)));
    let cd = below(directory, draft_name("current"@));
    let pd = below(directory, draft_name("previous"@));
    let c = below(directory, "current"@);
    let p = below(directory, "previous"@);
    assert(reaches(cd, cd) && reaches(pd, pd) && reaches(c, c) && reaches(p, p));
    assert(kept(before, after, paths.transaction));
    assert(kept(before, after, transaction_draft(paths)));
    assert(kept(before, after, cd));
    assert(kept(before, after, pd));
    assert(kept(before, after, c));
    assert(kept(before, after, p));
    assert forall|path: Seq<u8>| #[trigger]
        after.nodes.contains_key(path) && concerns(paths, channel, path) implies busy(
        paths,
        change,
    ).contains(path) by {
        assert(path != paths.lock);
        assert(kept(before, after, path));
        assert(before.nodes.contains_key(path));
    }
    lemma_release_held(before, after, home, channel, change.current);
    if let Some(name) = change.previous {
        lemma_release_held(before, after, home, channel, name);
    }
}

proof fn lemma_release_held(
    before: World,
    after: World,
    home: Seq<u8>,
    channel: Channel,
    name: Seq<char>,
)
    requires
        absolute(home),
        calm(before.outside),
        same_but_lock(before, after, places_below(home)),
        names_release_of(name, channel),
        installation_at(
            before,
            places_below(home),
            within(places_below(home).installs, name),
            Some(channel),
        ) is Ok,
    ensures
        installation_at(
            after,
            places_below(home),
            within(places_below(home).installs, name),
            Some(channel),
        ) is Ok,
{
    let paths = places_below(home);
    let path = within(paths.installs, name);
    lemma_lock_spared(home, channel);
    lemma_release_parts(home, channel, name);
    assert(kept(before, after, path));
    assert(kept(before, after, within(path, "bin/nvim"@)));
    assert(kept(before, after, within(path, ".nv-metadata"@)));
    lemma_calm_installation(before, after, paths, path, Some(channel));
}

/// Whatever operation comes next, it begins where the change has been completed: a change that was
/// noted down and then interrupted is made before anything else is done.
pub proof fn every_operation_completes_a_pending_change(
    w: World,
    home: Seq<u8>,
    setting: Setting,
    operation: Operation,
    change: Change,
)
    requires
        absolute(home),
        calm(w.outside),
        orderly(w.outside, places_below(home)),
        at(w.nodes, places_below(home).lock) is None,
        pending(w, places_below(home), change),
    ensures
        exists|u: World| #[trigger]
            selects_as_noted(u, places_below(home), change) && at(
                u.nodes,
                places_below(home).transaction,
            ) is None && locked(w, places_below(home), setting, operation).1 == lock_released(
                operated(u, places_below(home), setting, operation).1,
                places_below(home),
            ).1,
{
    let paths = places_below(home);
    let held = lock_taken(w, paths, setting.process).1;
    lemma_lock_taken_calmly(w, paths, setting.process);
    assert forall|path: Seq<u8>| path != paths.lock implies #[trigger] kept(w, held, path) by {
        lock_taken_keeps(w, paths, setting.process, path);
    }
    lemma_pending_held(w, held, home, change);
    pending_change_is_completed(held, home, change);
    let u = change_recovered(held, paths).1;
    assert(at(u.nodes, paths.transaction) is None) by {
        lemma_channel_places(home, change.channel);
        lemma_note_no_link(home, change.channel);
        assert(reaches(paths.transaction, paths.transaction));
        if u.nodes.contains_key(paths.transaction) {
            assert(links(paths, change.channel).contains(paths.transaction));
        }
    }
    assert(selects_as_noted(u, paths, change));
}

/// The note of a change is none of the links of a channel.
proof fn lemma_note_no_link(home: Seq<u8>, channel: Channel)
    requires
        absolute(home),
    ensures
        !links(places_below(home), channel).contains(places_below(home).transaction),
{
    let paths = places_below(home);
    let n = paths.state.len() as int + 1;
    lemma_names();
    lemma_state_bytes(home, channel);
    lemma_link_place(home, channel, "current"@);
    lemma_link_place(home, channel, "previous"@);
    lemma_apart(paths.link_of(channel, "current"@), paths.transaction, n);
    lemma_apart(paths.link_of(channel, "previous"@), paths.transaction, n);
}

} // verus!
