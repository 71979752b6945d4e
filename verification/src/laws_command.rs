//! What whole commands promise, with the lock and all that comes before it.

use vstd::prelude::*;
use vstd::utf8::*;

use crate::changes::{concerns, lemma_byte};
use crate::channel::Channel;
use crate::cli::{Cli, USAGE};
use crate::command_frames::{channel_rolled_back_keeps, lines_printed_keeps, status_printed_keeps};
use crate::commands::empty_status;
use crate::disk::{at, kept, lemma_ran, lemma_removed, orderly, selection};
use crate::frames::{
    change_recovered_keeps, lock_released_keeps, lock_taken_keeps, printed_keeps,
    private_made_keeps,
};
use crate::host::{invocation, reaches, Deed, Node, World};
use crate::laws::{
    foreign_executable, foreign_executable_is_kept, install_keeps_channel_in_use,
    installed_release_is_kept, is_installed, lemma_nvim_not_above, rollback_swaps,
};
use crate::layout::{lock_taken, state_root_prepared};
use crate::locate::{is_name, lemma_apart, lemma_names, lemma_places};
use crate::path::absolute;
use crate::paths::{places_below, Places};
use crate::pointers::{change_recovered, transaction_draft};
use crate::programs::{program_present, programs_present, required_programs, Setting};
use crate::run::{beginning, carried_out, locked, operated, recovered_and_operated, Operation};
use crate::separation::{
    lemma_active_spared, lemma_in_state, lemma_link_place, lemma_nvim_spared, lemma_state_bytes,
    unstaged,
};

verus! {

/// While the lock is held by another process, every operation is refused and the disk stays as it
/// is.
pub proof fn held_lock_excludes(w: World, paths: Places, setting: Setting, operation: Operation)
    requires
        at(w.nodes, paths.lock) is Some,
    ensures
        locked(w, paths, setting, operation).0 is Err,
        w.fault(Deed::CreateNew(paths.lock)) is None ==> locked(
            w,
            paths,
            setting,
            operation,
        ).1.nodes == w.nodes,
{
    reveal(World::create);
}

/// After an operation has succeeded, the lock is gone.
pub proof fn lock_is_given_back(w: World, paths: Places, setting: Setting, operation: Operation)
    requires
        locked(w, paths, setting, operation).0 is Ok,
    ensures
        at(locked(w, paths, setting, operation).1.nodes, paths.lock) is None,
{
    let w1 = lock_taken(w, paths, setting.process).1;
    let w2 = recovered_and_operated(w1, paths, setting, operation).1;
    lemma_removed(w2, paths.lock);
}

/// Whether no change is pending.
pub open spec fn nothing_pending(nodes: Map<Seq<u8>, Node>, paths: Places) -> bool {
    at(nodes, paths.transaction) is None && at(nodes, transaction_draft(paths)) is None
}

/// Where no change is pending, there is nothing to complete.
pub proof fn lemma_nothing_recovered(w: World, paths: Places)
    requires
        nothing_pending(w.nodes, paths),
    ensures
        change_recovered(w, paths).1 == w,
{
    reveal(World::sight);
}

/// The lock is none of the places that a change is about.
pub proof fn lemma_lock_apart(home: Seq<u8>)
    requires
        absolute(home),
    ensures
        places_below(home).lock != places_below(home).transaction,
        places_below(home).lock != transaction_draft(places_below(home)),
        places_below(home).lock != places_below(home).active,
{
    let paths = places_below(home);
    let n = paths.state.len() as int + 1;
    lemma_places(home);
    lemma_state_bytes(home, Channel::Stable);
    reveal_strlit("operation.lock");
    lemma_byte(paths.state, "operation.lock"@);
    lemma_apart(paths.lock, paths.transaction, n);
    lemma_apart(paths.lock, transaction_draft(paths), n);
    lemma_apart(paths.lock, paths.active, n);
}

/// The status leaves the disk as it is, but for the lock that it takes, unless there is an
/// interrupted change to complete.
pub proof fn status_keeps_disk(w: World, home: Seq<u8>, setting: Setting, path: Seq<u8>)
    requires
        absolute(home),
        orderly(w.outside, places_below(home)),
        nothing_pending(w.nodes, places_below(home)),
        path != places_below(home).lock,
    ensures
        kept(w, carried_out(w, places_below(home), setting, Cli::Status).1, path),
{
    let paths = places_below(home);
    lines_printed_keeps(w, paths, empty_status(), path);
    lemma_lock_apart(home);
    lock_taken_keeps(w, paths, setting.process, path);
    lock_taken_keeps(w, paths, setting.process, paths.transaction);
    lock_taken_keeps(w, paths, setting.process, transaction_draft(paths));
    let w1 = lock_taken(w, paths, setting.process).1;
    lemma_nothing_recovered(w1, paths);
    status_printed_keeps(w1, paths, path);
    let w2 = recovered_and_operated(w1, paths, setting, Operation::Status).1;
    lock_released_keeps(w2, paths, path);
}

/// Whether an operation leaves what is at `path` as it is in every world like `w`.
pub open spec fn spares(
    w: World,
    paths: Places,
    setting: Setting,
    operation: Operation,
    path: Seq<u8>,
) -> bool {
    forall|v: World|
        v.outside == w.outside && at(v.nodes, path) == at(w.nodes, path) ==> kept(
            v,
            (#[trigger] operated(v, paths, setting, operation)).1,
            path,
        )
}

proof fn locked_keeps(
    w: World,
    home: Seq<u8>,
    setting: Setting,
    operation: Operation,
    path: Seq<u8>,
)
    requires
        absolute(home),
        orderly(w.outside, places_below(home)),
        path != places_below(home).lock,
        !concerns(places_below(home), Channel::Stable, path),
        !concerns(places_below(home), Channel::Nightly, path),
        spares(w, places_below(home), setting, operation, path),
    ensures
        kept(w, locked(w, places_below(home), setting, operation).1, path),
{
    let paths = places_below(home);
    lock_taken_keeps(w, paths, setting.process, path);
    let w1 = lock_taken(w, paths, setting.process).1;
    change_recovered_keeps(w1, home, path);
    let w2 = change_recovered(w1, paths).1;
    assert(kept(w2, operated(w2, paths, setting, operation).1, path));
    let w3 = recovered_and_operated(w1, paths, setting, operation).1;
    lock_released_keeps(w3, paths, path);
}

pub proof fn programs_present_keeps(w: World, paths: Places, programs: Seq<Seq<char>>, path: Seq<u8>)
    requires
        orderly(w.outside, paths),
        unstaged(paths, path),
    ensures
        kept(w, programs_present(w, programs).1, path),
    decreases programs.len(),
{
    if programs.len() > 0 {
        lemma_ran(w, paths, invocation(encode_utf8(programs[0])).arg("--version"@), path);
        let w1 = program_present(w, programs[0]).1;
        programs_present_keeps(w1, paths, programs.skip(1), path);
    }
}

proof fn beginning_keeps(
    w: World,
    home: Seq<u8>,
    setting: Setting,
    operation: Operation,
    path: Seq<u8>,
)
    requires
        absolute(home),
        orderly(w.outside, places_below(home)),
        unstaged(places_below(home), path),
        path != places_below(home).lock,
        !reaches(path, places_below(home).state),
        !concerns(places_below(home), Channel::Stable, path),
        !concerns(places_below(home), Channel::Nightly, path),
        spares(w, places_below(home), setting, operation, path),
    ensures
        kept(w, beginning(w, places_below(home), setting, operation).1, path),
{
    let paths = places_below(home);
    programs_present_keeps(w, paths, required_programs(), path);
    let w1 = programs_present(w, required_programs()).1;
    private_made_keeps(w1, paths, paths.state, path);
    let w2 = state_root_prepared(w1, paths).1;
    locked_keeps(w2, home, setting, operation, path);
}

/// The command that installs a channel changes neither the channel in use nor the executable.
pub proof fn install_command_keeps_channel_in_use(
    w: World,
    home: Seq<u8>,
    setting: Setting,
    channel: Channel,
)
    requires
        absolute(home),
        orderly(w.outside, places_below(home)),
    ensures
        ({
            let paths = places_below(home);
            let after = carried_out(w, paths, setting, Cli::Install(channel)).1;
            kept(w, after, paths.active) && kept(w, after, paths.nvim_link)
        }),
{
    let paths = places_below(home);
    let operation = Operation::Install(channel);
    lemma_places(home);
    lemma_active_spared(home, Channel::Stable);
    lemma_active_spared(home, Channel::Nightly);
    lemma_nvim_spared(home, Channel::Stable);
    lemma_nvim_spared(home, Channel::Nightly);
    lemma_nvim_not_above(home);
    lemma_lock_apart(home);
    assert(paths.state.len() < paths.active.len());
    assert forall|v: World| v.outside == w.outside implies kept(
        v,
        (#[trigger] operated(v, paths, setting, operation)).1,
        paths.active,
    ) && kept(v, operated(v, paths, setting, operation).1, paths.nvim_link) by {
        install_keeps_channel_in_use(v, home, setting, channel);
    }
    beginning_keeps(w, home, setting, operation, paths.active);
    beginning_keeps(w, home, setting, operation, paths.nvim_link);
}

/// The operation that a command carries out while the lock is held.
pub open spec fn operation_of(cli: Cli) -> Operation {
    match cli {
        Cli::Install(channel) => Operation::Install(channel),
        Cli::Use(channel) => Operation::Use(channel),
        Cli::Update(selection) => Operation::Update(selection),
        Cli::Remove(selection) => Operation::Remove(selection),
        Cli::Rollback(channel) => Operation::Rollback(channel),
        Cli::Status | Cli::Help => Operation::Status,
    }
}

/// No command changes what nv did not make at the place of the executable, and no channel is put in
/// use where there is such a thing.
pub proof fn no_command_replaces_foreign_executable(
    w: World,
    home: Seq<u8>,
    setting: Setting,
    cli: Cli,
)
    requires
        absolute(home),
        orderly(w.outside, places_below(home)),
        foreign_executable(w.nodes, places_below(home)),
    ensures
        kept(
            w,
            carried_out(w, places_below(home), setting, cli).1,
            places_below(home).nvim_link,
        ),
        cli is Use ==> carried_out(w, places_below(home), setting, cli).0 is Err,
{
    let paths = places_below(home);
    let link = paths.nvim_link;
    let operation = operation_of(cli);
    lemma_nvim_spared(home, Channel::Stable);
    lemma_nvim_spared(home, Channel::Nightly);
    lemma_nvim_not_above(home);
    assert forall|v: World|
        v.outside == w.outside && at(v.nodes, link) == at(w.nodes, link) implies kept(
        v,
        (#[trigger] operated(v, paths, setting, operation)).1,
        link,
    ) by {
        foreign_executable_is_kept(v, home, setting, operation);
    }
    programs_present_keeps(w, paths, required_programs(), link);
    let w1 = programs_present(w, required_programs()).1;
    match cli {
        Cli::Install(_) => {
            beginning_keeps(w, home, setting, operation, link);
        },
        Cli::Use(_) => {
            beginning_keeps(w, home, setting, operation, link);
            private_made_keeps(w1, paths, paths.state, link);
            let w2 = state_root_prepared(w1, paths).1;
            lock_taken_keeps(w2, paths, setting.process, link);
            let w3 = lock_taken(w2, paths, setting.process).1;
            change_recovered_keeps(w3, home, link);
            let w4 = change_recovered(w3, paths).1;
            foreign_executable_is_kept(w4, home, setting, operation);
        },
        Cli::Update(_) => {
            locked_keeps(w1, home, setting, operation, link);
        },
        Cli::Remove(_) | Cli::Rollback(_) => {
            locked_keeps(w, home, setting, operation, link);
        },
        Cli::Status => {
            locked_keeps(w, home, setting, operation, link);
            lines_printed_keeps(w, paths, empty_status(), link);
        },
        Cli::Help => {
            printed_keeps(w, paths, USAGE@, link);
        },
    }
}

/// A link of a channel is none of the places that are touched before and after an operation.
pub proof fn lemma_link_around(home: Seq<u8>, channel: Channel, which: Seq<char>)
    requires
        absolute(home),
        is_name(which),
    ensures
        ({
            let paths = places_below(home);
            let link = paths.link_of(channel, which);
            &&& link != paths.lock
            &&& unstaged(paths, link)
            &&& !reaches(link, paths.state)
        }),
{
    let paths = places_below(home);
    let n = paths.state.len() as int + 1;
    lemma_link_place(home, channel, which);
    lemma_state_bytes(home, channel);
    lemma_places(home);
    reveal_strlit("operation.lock");
    lemma_byte(paths.state, "operation.lock"@);
    lemma_apart(paths.link_of(channel, which), paths.lock, n);
}

/// The note of a change is none of the places that are touched before an operation.
pub proof fn lemma_note_around(home: Seq<u8>)
    requires
        absolute(home),
    ensures
        ({
            let paths = places_below(home);
            &&& unstaged(paths, paths.transaction)
            &&& unstaged(paths, transaction_draft(paths))
            &&& !reaches(paths.transaction, paths.state)
            &&& !reaches(transaction_draft(paths), paths.state)
        }),
{
    let paths = places_below(home);
    let n = paths.state.len() as int + 1;
    lemma_places(home);
    lemma_state_bytes(home, Channel::Stable);
    lemma_in_state(home, Channel::Stable);
    lemma_apart(paths.staging, paths.transaction, n);
    lemma_apart(paths.staging, transaction_draft(paths), n);
}

/// The world in which an operation begins, where no change is pending, is the same as before the
/// lock was taken, but for the lock.
pub proof fn lemma_lock_only(w: World, home: Seq<u8>, setting: Setting, path: Seq<u8>)
    requires
        absolute(home),
        orderly(w.outside, places_below(home)),
        nothing_pending(w.nodes, places_below(home)),
        path != places_below(home).lock,
    ensures
        ({
            let paths = places_below(home);
            let w1 = lock_taken(w, paths, setting.process).1;
            change_recovered(w1, paths).1 == w1 && kept(w, w1, path)
        }),
{
    let paths = places_below(home);
    lemma_lock_apart(home);
    lock_taken_keeps(w, paths, setting.process, path);
    lock_taken_keeps(w, paths, setting.process, paths.transaction);
    lock_taken_keeps(w, paths, setting.process, transaction_draft(paths));
    lemma_nothing_recovered(lock_taken(w, paths, setting.process).1, paths);
}

/// Neither the command that installs a channel nor the one that puts it in use replaces a release
/// that is installed, where no change is pending.
pub proof fn commands_keep_installed_release(
    w: World,
    home: Seq<u8>,
    setting: Setting,
    cli: Cli,
    channel: Channel,
    which: Seq<char>,
)
    requires
        absolute(home),
        orderly(w.outside, places_below(home)),
        nothing_pending(w.nodes, places_below(home)),
        is_installed(w.nodes, places_below(home), channel),
        cli is Install || cli is Use,
        which == "current"@ || which == "previous"@,
    ensures
        kept(
            w,
            carried_out(w, places_below(home), setting, cli).1,
            places_below(home).link_of(channel, which),
        ),
{
    let paths = places_below(home);
    let link = paths.link_of(channel, which);
    let current = paths.link_of(channel, "current"@);
    let operation = operation_of(cli);
    lemma_names();
    lemma_link_around(home, channel, which);
    lemma_link_around(home, channel, "current"@);
    lemma_note_around(home);
    lemma_before_lock(w, home, link);
    lemma_before_lock(w, home, current);
    lemma_before_lock(w, home, paths.transaction);
    lemma_before_lock(w, home, transaction_draft(paths));
    let w1 = programs_present(w, required_programs()).1;
    let w2 = state_root_prepared(w1, paths).1;
    lemma_lock_only(w2, home, setting, link);
    lemma_lock_only(w2, home, setting, current);
    let w3 = lock_taken(w2, paths, setting.process).1;
    installed_release_is_kept(w3, home, setting, operation, channel, which);
    let w4 = recovered_and_operated(w3, paths, setting, operation).1;
    lock_released_keeps(w4, paths, link);
}

/// What happens before the lock is taken changes nothing but the staging directory and what is
/// above the state directory.
pub proof fn lemma_before_lock(w: World, home: Seq<u8>, path: Seq<u8>)
    requires
        absolute(home),
        orderly(w.outside, places_below(home)),
        unstaged(places_below(home), path),
        !reaches(path, places_below(home).state),
    ensures
        ({
            let paths = places_below(home);
            let w1 = programs_present(w, required_programs()).1;
            kept(w, w1, path) && kept(w, state_root_prepared(w1, paths).1, path)
        }),
{
    let paths = places_below(home);
    programs_present_keeps(w, paths, required_programs(), path);
    let w1 = programs_present(w, required_programs()).1;
    private_made_keeps(w1, paths, paths.state, path);
}

/// The command that rolls a channel back swaps its current and its previous release, where no
/// change is pending.
pub proof fn rollback_command_swaps(w: World, home: Seq<u8>, setting: Setting, channel: Channel)
    requires
        absolute(home),
        orderly(w.outside, places_below(home)),
        nothing_pending(w.nodes, places_below(home)),
        carried_out(w, places_below(home), setting, Cli::Rollback(channel)).0 is Ok,
    ensures
        ({
            let paths = places_below(home);
            let after = carried_out(w, paths, setting, Cli::Rollback(channel)).1;
            let current = selection(w.nodes, paths, channel, "current"@);
            let previous = selection(w.nodes, paths, channel, "previous"@);
            &&& current is Some && previous is Some && current != previous
            &&& selection(after.nodes, paths, channel, "current"@) == previous
            &&& selection(after.nodes, paths, channel, "previous"@) == current
        }),
{
    let paths = places_below(home);
    let operation = Operation::Rollback(channel);
    let current = paths.link_of(channel, "current"@);
    let previous = paths.link_of(channel, "previous"@);
    lemma_names();
    lemma_link_around(home, channel, "current"@);
    lemma_link_around(home, channel, "previous"@);
    lemma_lock_only(w, home, setting, current);
    lemma_lock_only(w, home, setting, previous);
    let w1 = lock_taken(w, paths, setting.process).1;
    rollback_swaps(w1, home, channel);
    lemma_active_spared(home, channel);
    channel_rolled_back_keeps(w1, home, channel, paths.active);
    let w2 = recovered_and_operated(w1, paths, setting, operation).1;
    lock_released_keeps(w2, paths, current);
    lock_released_keeps(w2, paths, previous);
}

} // verus!
