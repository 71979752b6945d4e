//! What a whole operation promises on a calm machine, with the lock around it, and what it finds
//! there at first.

use vstd::prelude::*;

use crate::calm::{calm, lemma_calm_attempt, lemma_calm_create, lemma_calm_sight};
use crate::changes::{lemma_byte, lemma_channel_places};
use crate::channel::Channel;
use crate::command_frames::{
    channel_activated_keeps, channel_rolled_back_keeps, channels_updated_keeps, deactivated_keeps,
    status_printed_keeps, unused_removed_keeps, use_concerns,
};
use crate::commands::{removals, use_ended};
use crate::disk::{
    at, kept, lemma_created_file, lemma_removed, lemma_stored, lemma_written, orderly,
};
use crate::frames::{above_nothing, layout_ensured_keeps, lock_released_keeps, lock_taken_keeps};
use crate::host::{reaches, with_directories, Deed, Node, World};
use crate::install::missing_installed;
use crate::install_frames::missing_installed_keeps;
use crate::laws_command::{lemma_lock_apart, nothing_pending};
use crate::layout::{directories_made, layout_ensured, lock_taken};
use crate::locate::{
    below, draft_name, lemma_apart, lemma_draft, lemma_draft_name, lemma_names, lemma_places,
    root_of,
};
use crate::path::absolute;
use crate::paths::{layout, places_below, Places};
use crate::pointers::{change_recovered, transaction_draft};
use crate::programs::Setting;
use crate::run::{locked, operated, Operation};
use crate::separation::{lemma_home_bytes, lemma_state_bytes, spared};
use crate::text::decimal;

verus! {

/// The lock is none of the places that an operation is about.
pub proof fn lemma_lock_spared(home: Seq<u8>, channel: Channel)
    requires
        absolute(home),
    ensures
        ({
            let paths = places_below(home);
            &&& spared(paths, channel, paths.lock)
            &&& above_nothing(paths, paths.lock)
            &&& !use_concerns(paths, paths.lock)
            &&& paths.lock != paths.active
            &&& paths.lock != paths.nvim_link
            &&& paths.lock != paths.link_of(channel, "current"@)
            &&& paths.lock != paths.link_of(channel, "previous"@)
        }),
{
    let paths = places_below(home);
    let directory = paths.directory_of(channel);
    let lock = paths.lock;
    let n = paths.state.len() as int + 1;
    lemma_places(home);
    lemma_names();
    lemma_state_bytes(home, channel);
    lemma_state_bytes(home, Channel::Stable);
    lemma_state_bytes(home, Channel::Nightly);
    lemma_channel_places(home, channel);
    lemma_draft_name("active"@);
    lemma_draft(paths.state, "active"@);
    lemma_draft(paths.local_bin, "nvim"@);
    reveal_strlit("operation.lock");
    lemma_byte(paths.state, "operation.lock"@);
    lemma_byte(paths.state, draft_name("active"@));
    assert(lock[n] == 111);
    assert(lock.take(paths.state.len() as int) =~= paths.state);
    lemma_apart(paths.staging, lock, n);
    lemma_apart(paths.installs, lock, n);
    lemma_apart(paths.active, lock, n);
    lemma_apart(below(paths.state, draft_name("active"@)), lock, n);
    lemma_apart(paths.transaction, lock, n);
    lemma_apart(transaction_draft(paths), lock, n);
    lemma_apart(below(directory, "current"@), lock, n);
    lemma_apart(below(directory, "previous"@), lock, n);
    lemma_apart(below(directory, draft_name("current"@)), lock, n);
    lemma_apart(below(directory, draft_name("previous"@)), lock, n);
    assert forall|k: int| 0 <= k < layout(paths).len() implies !reaches(
        lock,
        #[trigger] layout(paths)[k],
    ) by {
        lemma_apart(lock, layout(paths)[k], n);
    }
    lemma_home_bytes(home);
    let m = root_of(home).len() as int + 7;
    lemma_apart(paths.nvim_link, lock, m);
    lemma_apart(below(paths.local_bin, draft_name("nvim"@)), lock, m);
    lemma_apart(lock, paths.local_bin, m);
}

/// An operation leaves the lock as it is.
pub proof fn lemma_operation_keeps_lock(w: World, home: Seq<u8>, setting: Setting, operation: Operation)
    requires
        absolute(home),
        orderly(w.outside, places_below(home)),
    ensures
        kept(w, operated(w, places_below(home), setting, operation).1, places_below(home).lock),
{
    let paths = places_below(home);
    let lock = paths.lock;
    lemma_lock_spared(home, Channel::Stable);
    lemma_lock_spared(home, Channel::Nightly);
    layout_ensured_keeps(w, paths, lock);
    let w1 = layout_ensured(w, paths).1;
    match operation {
        Operation::Install(channel) => {
            missing_installed_keeps(w1, home, setting, channel, lock);
        },
        Operation::Use(channel) => {
            missing_installed_keeps(w1, home, setting, channel, lock);
            let w2 = missing_installed(w1, paths, setting, channel).1;
            channel_activated_keeps(w2, home, channel, lock);
        },
        Operation::Update(selected) => {
            channels_updated_keeps(w, home, setting, selected, lock);
        },
        Operation::Remove(selected) => {
            if let Ok(states) = removals(w, paths, selected) {
                deactivated_keeps(w, paths, lock);
                let w2 = use_ended(w, paths, states).1;
                assert forall|k: int| 0 <= k < states.len() implies lock != paths.link_of(
                    (#[trigger] states[k]).0,
                    "current"@,
                ) && lock != paths.link_of(states[k].0, "previous"@) by {
                    lemma_lock_spared(home, states[k].0);
                }
                unused_removed_keeps(w2, home, states, lock);
            }
        },
        Operation::Rollback(channel) => {
            channel_rolled_back_keeps(w, home, channel, lock);
        },
        Operation::Status => {
            status_printed_keeps(w, paths, lock);
        },
    }
}

/// On a calm machine the lock is taken where it is free.
pub proof fn lemma_lock_taken_calmly(w: World, paths: Places, process: u32)
    requires
        calm(w.outside),
        at(w.nodes, paths.lock) is None,
    ensures
        ({
            let (taken, after) = lock_taken(w, paths, process);
            &&& taken is Ok
            &&& after.outside == w.outside
            &&& at(after.nodes, paths.lock) matches Some(node) && node is File
        }),
{
    let lock = paths.lock;
    let text = "pid="@ + decimal(process as nat) + "\n"@;
    let write = Deed::Write(lock, text);
    lemma_calm_create(w, lock);
    lemma_created_file(w, lock, lock);
    let w1 = w.create(lock).1;
    assert(at(w1.nodes, lock) matches Some(Node::File { .. }));
    lemma_calm_attempt(w1, write);
    lemma_written(w1, lock, text);
    let w2 = w1.attempt(write).1;
    lemma_calm_attempt(w2, Deed::SyncFile(lock));
    lemma_stored(w2, Deed::SyncFile(lock));
}

/// On a calm machine on which the lock is free and no change is pending, an operation that succeeds
/// by itself succeeds with the lock around it, and comes to the same beside the lock, which is given
/// back.
pub proof fn operation_succeeds_with_lock(
    w: World,
    home: Seq<u8>,
    setting: Setting,
    operation: Operation,
)
    requires
        absolute(home),
        calm(w.outside),
        orderly(w.outside, places_below(home)),
        at(w.nodes, places_below(home).lock) is None,
        nothing_pending(w.nodes, places_below(home)),
        operated(
            lock_taken(w, places_below(home), setting.process).1,
            places_below(home),
            setting,
            operation,
        ).0 is Ok,
    ensures
        locked(w, places_below(home), setting, operation).0 is Ok,
        at(
            locked(w, places_below(home), setting, operation).1.nodes,
            places_below(home).lock,
        ) is None,
        forall|path: Seq<u8>|
            path != places_below(home).lock ==> #[trigger] kept(
                operated(
                    lock_taken(w, places_below(home), setting.process).1,
                    places_below(home),
                    setting,
                    operation,
                ).1,
                locked(w, places_below(home), setting, operation).1,
                path,
            ),
{
    let paths = places_below(home);
    lemma_lock_taken_calmly(w, paths, setting.process);
    lemma_lock_apart(home);
    lock_taken_keeps(w, paths, setting.process, paths.transaction);
    lock_taken_keeps(w, paths, setting.process, transaction_draft(paths));
    let w1 = lock_taken(w, paths, setting.process).1;
    lemma_calm_sight(w1, paths.transaction);
    lemma_calm_sight(w1, transaction_draft(paths));
    assert(change_recovered(w1, paths) == (Ok::<(), Seq<char>>(()), w1));
    lemma_operation_keeps_lock(w1, home, setting, operation);
    let w2 = operated(w1, paths, setting, operation).1;
    lemma_calm_attempt(w2, Deed::RemoveFile(paths.lock));
    lemma_removed(w2, paths.lock);
    assert forall|path: Seq<u8>| path != paths.lock implies #[trigger] kept(
        w2,
        locked(w, paths, setting, operation).1,
        path,
    ) by {
        lock_released_keeps(w2, paths, path);
    }
}

/// Whether nothing but directories and links is above any of the paths.
pub open spec fn reachable(w: World, paths: Seq<Seq<u8>>) -> bool {
    forall|k: int| 0 <= k < paths.len() ==> w.permits(Deed::MakePrivateDirectories(#[trigger] paths[k]))
}

/// Whether directories have come at or above some of the paths, and nothing else has changed.
pub open spec fn grown(
    before: Map<Seq<u8>, Node>,
    after: Map<Seq<u8>, Node>,
    paths: Seq<Seq<u8>>,
) -> bool {
    forall|path: Seq<u8>| #[trigger]
        at(after, path) == at(before, path) || {
            &&& at(before, path) is None
            &&& at(after, path)->0 is Directory
            &&& exists|k: int| 0 <= k < paths.len() && reaches(path, #[trigger] paths[k])
        }
}

/// Directories are made on a calm machine, and are there.
proof fn lemma_directories_made(w: World, paths: Seq<Seq<u8>>)
    requires
        calm(w.outside),
        reachable(w, paths),
    ensures
        ({
            let (made, after) = directories_made(w, paths);
            &&& made is Ok
            &&& after.outside == w.outside
            &&& grown(w.nodes, after.nodes, paths)
            &&& forall|k: int|
                0 <= k < paths.len() && paths[k].len() > 0 ==> at(after.nodes, #[trigger] paths[k]) is Some
        }),
    decreases paths.len(),
{
    if paths.len() > 0 {
        let make = Deed::MakePrivateDirectories(paths[0]);
        let rest = paths.skip(1);
        lemma_calm_attempt(w, make);
        let w1 = w.attempt(make).1;
        assert(w1.nodes == with_directories(w.nodes, paths[0], 0o700 & !w.outside.umask)) by {
            reveal(World::attempt);
        }
        assert forall|k: int| 0 <= k < rest.len() implies w1.permits(
            Deed::MakePrivateDirectories(#[trigger] rest[k]),
        ) by {
            assert(rest[k] == paths[k + 1]);
            assert(w.permits(Deed::MakePrivateDirectories(paths[k + 1])));
        }
        lemma_directories_made(w1, rest);
        let after = directories_made(w1, rest).1;
        assert(reaches(paths[0], paths[0]));
        assert forall|path: Seq<u8>| #[trigger]
            at(after.nodes, path) == at(w.nodes, path) || {
                &&& at(w.nodes, path) is None
                &&& at(after.nodes, path)->0 is Directory
                &&& exists|k: int| 0 <= k < paths.len() && reaches(path, #[trigger] paths[k])
            } by {
            if at(after.nodes, path) != at(w1.nodes, path) {
                let k = choose|k: int| 0 <= k < rest.len() && reaches(path, #[trigger] rest[k]);
                assert(reaches(path, paths[k + 1]));
            }
        }
        assert forall|k: int| 0 <= k < paths.len() && paths[k].len() > 0 implies at(
            after.nodes,
            #[trigger] paths[k],
        ) is Some by {
            if k > 0 {
                assert(paths[k] == rest[k - 1]);
            } else {
                assert(w1.nodes.contains_key(paths[0]));
            }
        }
    }
}

/// On a calm machine on which none of the directories of the state is there, and only directories
/// and links are above them, they are made.
pub proof fn missing_layout_is_made(w: World, home: Seq<u8>)
    requires
        absolute(home),
        calm(w.outside),
        forall|k: int|
            0 <= k < layout(places_below(home)).len() ==> at(
                w.nodes,
                #[trigger] layout(places_below(home))[k],
            ) is None,
        reachable(w, layout(places_below(home))),
    ensures
        ({
            let (ensured, after) = layout_ensured(w, places_below(home));
            &&& ensured is Ok
            &&& after.outside == w.outside
            &&& grown(w.nodes, after.nodes, layout(places_below(home)))
            &&& forall|k: int|
                0 <= k < layout(places_below(home)).len() ==> at(
                    after.nodes,
                    #[trigger] layout(places_below(home))[k],
                ) is Some
        }),
{
    let all = layout(places_below(home));
    lemma_places(home);
    lemma_channel_places(home, Channel::Stable);
    lemma_channel_places(home, Channel::Nightly);
    assert forall|k: int| 0 <= k < all.len() implies !(w.sight(#[trigger] all[k]) is Present)
        && all[k].len() > 0 by {
        lemma_calm_sight(w, all[k]);
    }
    lemma_directories_made(w, all);
}

} // verus!
