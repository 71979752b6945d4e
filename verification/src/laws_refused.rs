//! What is refused, and that nothing is changed then; and what is left behind in any case.

use vstd::prelude::*;
use vstd::utf8::*;

use crate::activation::{active_channel, bin_prepared, channel_activated, destination};
use crate::calm::{calm, lemma_calm_attempt};
use crate::channel::{Channel, ChannelSelection};
use crate::cleanup::{installs_cleaned, unreferenced};
use crate::cli::Cli;
use crate::commands::{
    channel_rolled_back, channels_removed, channels_updated, is_among, removals, status_printed,
};
use crate::disk::{
    at, lemma_created_file, lemma_removed, lemma_stored, lemma_written, orderly, selection,
};
use crate::encoding::lossy_text;
use crate::frames::{change_recovered_keeps, printed_keeps, warned_keeps};
use crate::host::{
    reaches, with_directories, Deed, Ending, Entry, Invocation, Names, Node, Sight, World,
};
use crate::install::{channel_installed, install_concluded, release_selected};
use crate::install_frames::{installs_cleaned_keeps, release_selected_keeps, staging_created_keeps};
use crate::installation::{installation_at, pointer_of, state_of, states_of, Selected};
use crate::laws_first::words;
use crate::laws_installed::lemma_staging_parent;
use crate::laws_locked::{lemma_lock_spared, lemma_lock_taken_calmly, lemma_operation_keeps_lock};
use crate::laws_offer::{complied, description_request, lemma_description_request};
use crate::laws_paths::{
    channel_in_use_is_read, executable_is_nothing_or_the_managed_link, is_managed_link,
};
use crate::laws_told::lemma_two_filtered;
use crate::laws_words::spelling;
use crate::layout::{
    all_directories, directories_made, layout_ensured, lock_released, lock_taken, private_made,
    some_present, state_root_prepared, warned,
};
use crate::metadata::Record;
use crate::path::{absolute, joined, pieces, shown};
use crate::paths::{layout, places_below, within, Places};
use crate::pointers::{change_finished, change_recovered, link_draft, link_name, link_replaced};
use crate::programs::{
    downloaded, program_failure, programs_present, required_programs, version_check, Setting,
};
use crate::run::{
    both, carried_out, channel_used, locked, operated, recovered_and_operated, Operation,
};
use crate::separation::lemma_active_spared;
use crate::staging::{staging_created, staging_finished, staging_name, staging_removed};
use crate::text::{decimal, signed_decimal, trimmed};
use crate::transaction::Change;

verus! {

/// A channel of which nothing is installed is neither updated nor removed nor rolled back nor put in
/// use; each of them says so, and changes nothing.
pub proof fn channel_that_is_not_installed_is_refused(
    w: World,
    paths: Places,
    setting: Setting,
    channel: Channel,
)
    requires
        w.sight(paths.link_of(channel, "current"@)) is Absent,
        w.sight(paths.link_of(channel, "previous"@)) is Absent,
    ensures
        channels_updated(w, paths, setting, ChannelSelection::Channel(channel)) == (
            Err::<(), Seq<char>>(
                spelling(channel) + " is not installed; run 'nv install "@ + spelling(channel)
                    + "' first"@,
            ),
            w,
        ),
        channels_removed(w, paths, ChannelSelection::Channel(channel)) == (
            Err::<(), Seq<char>>(spelling(channel) + " is not installed"@),
            w,
        ),
        channel_rolled_back(w, paths, channel) == (
            Err::<(), Seq<char>>(
                "cannot roll back "@ + spelling(channel) + ": channel is not installed"@,
            ),
            w,
        ),
        channel_activated(w, paths, channel) == (
            Err::<(), Seq<char>>(
                "cannot activate "@ + spelling(channel) + ": channel is not installed"@,
            ),
            w,
        ),
{
    reveal(state_of);
    reveal(pointer_of);
}

/// Where no channel is installed, there is nothing to update and nothing to remove.
pub proof fn nothing_installed_is_refused(w: World, paths: Places, setting: Setting)
    requires
        forall|channel: Channel, which: Seq<char>|
            which == "current"@ || which == "previous"@ ==> (#[trigger] w.sight(
                paths.link_of(channel, which),
            )) is Absent,
    ensures
        channels_updated(w, paths, setting, ChannelSelection::All) == (
            Err::<(), Seq<char>>(
                "no channels are installed; run 'nv install stable' or 'nv install nightly' first"@,
            ),
            w,
        ),
        channels_removed(w, paths, ChannelSelection::All) == (
            Err::<(), Seq<char>>("no channels are installed"@),
            w,
        ),
{
    reveal(state_of);
    reveal(pointer_of);
    let wanted = |entry: (Channel, Selected)| entry.1.current is Some;
    assert(w.sight(paths.link_of(Channel::Stable, "current"@)) is Absent);
    assert(w.sight(paths.link_of(Channel::Stable, "previous"@)) is Absent);
    assert(w.sight(paths.link_of(Channel::Nightly, "current"@)) is Absent);
    assert(w.sight(paths.link_of(Channel::Nightly, "previous"@)) is Absent);
    let all = states_of(w, paths)->Ok_0;
    lemma_two_filtered(all, wanted);
    assert(all.filter(wanted).len() == 0);
}

/// A channel without a previous release cannot be rolled back.
pub proof fn rollback_needs_a_previous_release(w: World, paths: Places, channel: Channel)
    requires
        state_of(w, paths, channel) matches Ok(selected) && selected.current is Some
            && selected.previous is None,
    ensures
        channel_rolled_back(w, paths, channel) == (
            Err::<(), Seq<char>>(
                "cannot roll back "@ + spelling(channel) + ": no previous installation exists"@,
            ),
            w,
        ),
{
}

/// Whether a command works on a state that must be there already.
pub open spec fn needs_state(cli: Cli) -> bool {
    cli is Update || cli is Remove || cli is Rollback
}

/// Whether there is a directory at a path that neither its group nor others may write to.
pub open spec fn is_safe(w: World, path: Seq<u8>) -> bool {
    w.sight(path) matches Sight::Present(Entry::Directory(mode)) && mode & 0o022 == 0
}

/// Whether there is a directory at a path that its group or others may write to.
pub open spec fn is_shared(w: World, path: Seq<u8>) -> bool {
    w.sight(path) matches Sight::Present(Entry::Directory(mode)) && mode & 0o022 != 0
}

/// A state directory that others may write to, or that is no directory, is refused by every command,
/// and nothing on disk is changed. Without one, only an installation and a use go on.
pub proof fn unsafe_state_is_refused(w: World, paths: Places, setting: Setting, cli: Cli)
    requires
        cli is Remove || cli is Rollback || cli is Status,
    ensures
        w.sight(paths.state) is Present && !is_safe(w, paths.state) ==> carried_out(
            w,
            paths,
            setting,
            cli,
        ).0 is Err && carried_out(w, paths, setting, cli).1 == w,
        is_shared(w, paths.state) ==> carried_out(w, paths, setting, cli).0 == Err::<
            (),
            Seq<char>,
        >(
            "refusing writable-by-group-or-others directory "@ + shown(paths.state)
                + "; remove group/other write permissions"@,
        ),
        w.sight(paths.state) is Absent && needs_state(cli) ==> carried_out(w, paths, setting, cli)
            == (
            Err::<(), Seq<char>>(
                "nv state directory "@ + shown(paths.state)
                    + " does not exist; install a channel first"@,
            ),
            w,
        ),
{
}

/// The same holds of the commands that run other programs: these are looked for first, and then the
/// state is refused.
pub proof fn unsafe_state_is_refused_before_an_installation(
    w: World,
    paths: Places,
    setting: Setting,
    cli: Cli,
)
    requires
        cli is Install || cli is Use || cli is Update,
    ensures
        ({
            let (present, w1) = programs_present(w, required_programs());
            let (done, after) = carried_out(w, paths, setting, cli);
            &&& present is Err ==> done is Err && after == w1
            &&& w1.sight(paths.state) is Present && !is_safe(w1, paths.state) ==> done is Err
                && after == w1
            &&& w1.sight(paths.state) is Absent && cli is Update ==> done is Err && after == w1
        }),
{
}

/// How a program is asked for its version.
pub open spec fn presence_request(program: Seq<char>) -> Invocation {
    Invocation {
        program: encode_utf8(program),
        arguments: seq![encode_utf8("--version"@)],
        report: false,
    }
}

/// Nothing is installed or updated unless `curl`, `jq`, `sha256sum` and `tar` are there, each of
/// which is asked for its version, in this order.
pub proof fn four_programs_are_needed(w: World)
    ensures
        ({
            let (curl, w1) = w.run(presence_request("curl"@));
            let (jq, w2) = w1.run(presence_request("jq"@));
            let (sha256sum, w3) = w2.run(presence_request("sha256sum"@));
            let (tar, w4) = w3.run(presence_request("tar"@));
            let (present, after) = programs_present(w, required_programs());
            &&& present is Ok <==> complied(curl) && complied(jq) && complied(sha256sum)
                && complied(tar)
            &&& present is Ok ==> after == w4
            &&& !complied(curl) ==> after == w1
        }),
{
    let none: Seq<Seq<u8>> = seq![];
    assert(none.push(encode_utf8("--version"@)) =~= seq![encode_utf8("--version"@)]);
    assert(version_check("curl"@) == presence_request("curl"@));
    assert(version_check("jq"@) == presence_request("jq"@));
    assert(version_check("sha256sum"@) == presence_request("sha256sum"@));
    assert(version_check("tar"@) == presence_request("tar"@));
    let all = required_programs();
    assert(all.skip(1)[0] == "jq"@);
    assert(all.skip(1).skip(1)[0] == "sha256sum"@);
    assert(all.skip(1).skip(1).skip(1)[0] == "tar"@);
    assert(all.skip(1).skip(1).skip(1).skip(1).len() == 0);
    reveal_with_fuel(programs_present, 5);
}

/// A program that fails is reported with what it was run for, the file it was about, its status and
/// what it wrote, without the white space around that.
pub proof fn failure_of_a_program_is_reported(
    program: Seq<char>,
    operation: Seq<char>,
    ending: Ending,
    path: Seq<u8>,
)
    ensures
        ({
            let status = match ending.code {
                Some(code) => signed_decimal(code as int),
                None => "terminated by signal"@,
            };
            let words = trimmed(lossy_text(ending.stderr));
            let head = "external program '"@ + program + "' failed during "@ + operation;
            &&& words.len() > 0 ==> program_failure(program, operation, ending, Some(path)) == head
                + (" for "@ + shown(path)) + " with status "@ + status + (": "@ + words)
            &&& words.len() == 0 ==> program_failure(program, operation, ending, Some(path)) == head
                + (" for "@ + shown(path)) + " with status "@ + status
            &&& words.len() == 0 ==> program_failure(program, operation, ending, None) == head
                + " with status "@ + status
        }),
{
    let status = match ending.code {
        Some(code) => signed_decimal(code as int),
        None => "terminated by signal"@,
    };
    let head = "external program '"@ + program + "' failed during "@ + operation;
    reveal_strlit("");
    assert(head + ""@ =~= head);
    assert(head + " with status "@ + status + ""@ =~= head + " with status "@ + status);
    assert(head + (" for "@ + shown(path)) + " with status "@ + status + ""@ =~= head + (" for "@
        + shown(path)) + " with status "@ + status);
}

/// While the lock is there, every command that would change anything, and the status, is refused
/// with the place of the lock, and the disk stays as it is.
pub proof fn held_lock_stops_every_command(w: World, paths: Places, setting: Setting, cli: Cli)
    requires
        calm(w.outside),
        cli is Remove || cli is Rollback || cli is Status,
        is_safe(w, paths.state),
        at(w.nodes, paths.lock) is Some,
    ensures
        carried_out(w, paths, setting, cli).0 == Err::<(), Seq<char>>(
            "another nv operation is active, or a previous operation was interrupted: "@ + shown(
                paths.lock,
            )
                + " exists; once no nv process is running, inspect it and move it to the trash manually"@,
        ),
        carried_out(w, paths, setting, cli).1.nodes == w.nodes,
{
    lemma_lock_held(w, paths, setting.process);
}

proof fn lemma_lock_held(w: World, paths: Places, process: u32)
    requires
        calm(w.outside),
        at(w.nodes, paths.lock) is Some,
    ensures
        lock_taken(w, paths, process).0 == Err::<(), Seq<char>>(
            "another nv operation is active, or a previous operation was interrupted: "@ + shown(
                paths.lock,
            )
                + " exists; once no nv process is running, inspect it and move it to the trash manually"@,
        ),
        lock_taken(w, paths, process).1.nodes == w.nodes,
{
    reveal(World::create);
    assert((w.outside.fault)(w.moment, w.nodes, Deed::CreateNew(paths.lock)) is None);
}

/// The same holds of the commands that run other programs, once these have been looked for.
pub proof fn held_lock_stops_an_installation(w: World, paths: Places, setting: Setting, cli: Cli)
    requires
        cli is Install || cli is Use || cli is Update,
        ({
            let w1 = programs_present(w, required_programs()).1;
            &&& calm(w1.outside)
            &&& is_safe(w1, paths.state)
            &&& at(w1.nodes, paths.lock) is Some
        }),
    ensures
        carried_out(w, paths, setting, cli).0 is Err,
        carried_out(w, paths, setting, cli).1.nodes == programs_present(
            w,
            required_programs(),
        ).1.nodes,
{
    lemma_lock_held(programs_present(w, required_programs()).1, paths, setting.process);
}

/// The lock names the process that holds it.
pub proof fn lock_names_its_process(w: World, paths: Places, process: u32)
    requires
        lock_taken(w, paths, process).0 is Ok,
    ensures
        at(lock_taken(w, paths, process).1.nodes, paths.lock) matches Some(
            Node::File { contents, .. },
        ) && contents == encode_utf8("pid="@ + decimal(process as nat) + "\n"@),
        at(w.nodes, paths.lock) is None,
{
    let lock = paths.lock;
    let text = "pid="@ + decimal(process as nat) + "\n"@;
    lemma_created_file(w, lock, lock);
    let w1 = w.create(lock).1;
    lemma_written(w1, lock, text);
    let w2 = w1.attempt(Deed::Write(lock, text)).1;
    lemma_stored(w2, Deed::SyncFile(lock));
}

/// On a calm machine the lock is given back whether the operation succeeds or not.
pub proof fn lock_is_given_back_in_any_case(
    w: World,
    home: Seq<u8>,
    setting: Setting,
    operation: Operation,
)
    requires
        absolute(home),
        calm(w.outside),
        orderly(w.outside, places_below(home)),
        at(w.nodes, places_below(home).lock) is None,
    ensures
        at(
            locked(w, places_below(home), setting, operation).1.nodes,
            places_below(home).lock,
        ) is None,
{
    let paths = places_below(home);
    lemma_lock_taken_calmly(w, paths, setting.process);
    let w1 = lock_taken(w, paths, setting.process).1;
    lemma_lock_spared(home, Channel::Stable);
    lemma_lock_spared(home, Channel::Nightly);
    change_recovered_keeps(w1, home, paths.lock);
    let w2 = change_recovered(w1, paths).1;
    lemma_operation_keeps_lock(w2, home, setting, operation);
    let w3 = recovered_and_operated(w1, paths, setting, operation).1;
    lemma_calm_attempt(w3, Deed::RemoveFile(paths.lock));
    lemma_removed(w3, paths.lock);
}

/// If an operation fails and the lock cannot be removed either, both are told; if only one of them
/// fails, that one is.
pub proof fn both_failures_are_told(
    operated: Result<(), Seq<char>>,
    released: Result<(), Seq<char>>,
)
    ensures
        both(operated, released) is Ok <==> operated is Ok && released is Ok,
        operated is Ok && released is Err ==> both(operated, released) == released,
        operated is Err && released is Ok ==> both(operated, released) == operated,
        operated is Err && released is Err ==> both(operated, released) == Err::<(), Seq<char>>(
            operated->Err_0 + "; additionally, "@ + released->Err_0,
        ),
{
}

/// Whether there is a directory at a path.
pub open spec fn is_directory(nodes: Map<Seq<u8>, Node>, path: Seq<u8>) -> bool {
    at(nodes, path) matches Some(node) && node is Directory
}

/// A staging directory is made only where there is none, and whether the installation that it was
/// made for succeeds or not, it is not left behind on a calm machine.
pub proof fn staging_is_not_left_behind(
    w: World,
    home: Seq<u8>,
    setting: Setting,
    channel: Channel,
)
    requires
        absolute(home),
        calm(w.outside),
        orderly(w.outside, places_below(home)),
    ensures
        ({
            let paths = places_below(home);
            let created = staging_created(w, paths, channel, setting.process).0;
            let (done, after) = channel_installed(w, paths, setting, channel);
            &&& created is Ok ==> w.listing(paths.staging) == Names::Names(seq![])
            &&& created is Err ==> done is Err
            &&& created is Ok && state_of(w, paths, channel) is Ok ==> !is_directory(
                after.nodes,
                created->Ok_0,
            )
        }),
{
    let paths = places_below(home);
    let (created, w1) = staging_created(w, paths, channel, setting.process);
    if let Names::Names(names) = w.listing(paths.staging) {
        if names.len() == 0 {
            assert(names =~= seq![]);
        }
    }
    if let Ok(staging) = created {
        if let Ok(selected) = state_of(w, paths, channel) {
            let had = selected.current;
            let time = w.time().0->Ok_0;
            lemma_active_spared(home, channel);
            staging_created_keeps(w, home, channel, setting.process, paths.active);
            release_selected_keeps(w1, home, setting, channel, had, staging, paths.active);
            let (chosen, w2) = release_selected(w1, paths, setting, channel, had, staging);
            match chosen {
                Ok(Some(record)) => {
                    lemma_concluded_gone(w2, home, setting.process, channel, record, time);
                },
                _ => {
                    lemma_staging_gone(w2, home, channel, setting.process, time);
                },
            }
        }
    }
}

proof fn lemma_staging_gone(w: World, home: Seq<u8>, channel: Channel, process: u32, time: u128)
    requires
        absolute(home),
        calm(w.outside),
    ensures
        ({
            let staging = within(
                places_below(home).staging,
                staging_name(channel, process, time),
            );
            let one = staging_removed(w, staging).1;
            let two = staging_finished(w, staging).1;
            &&& !is_directory(one.nodes, staging)
            &&& !is_directory(two.nodes, staging)
            &&& one.outside == w.outside
            &&& two.outside == w.outside
        }),
{
    let staging = within(places_below(home).staging, staging_name(channel, process, time));
    let remove = Deed::RemoveTree(staging);
    lemma_staging_parent(home, channel, process, time);
    assert((w.outside.fault)(w.moment, w.nodes, remove) is None);
    let w1 = w.attempt(remove).1;
    assert((w.outside.fault)(w1.moment, w1.nodes, remove) is None);
    assert(reaches(staging, staging));
    reveal(World::attempt);
}

proof fn lemma_concluded_gone(
    w: World,
    home: Seq<u8>,
    process: u32,
    channel: Channel,
    record: Record,
    time: u128,
)
    requires
        absolute(home),
        calm(w.outside),
        orderly(w.outside, places_below(home)),
    ensures
        ({
            let staging = within(
                places_below(home).staging,
                staging_name(channel, process, time),
            );
            let after = install_concluded(w, places_below(home), channel, record, staging).1;
            !is_directory(after.nodes, staging)
        }),
{
    reveal(install_concluded);
    let paths = places_below(home);
    let staging = within(paths.staging, staging_name(channel, process, time));
    lemma_active_spared(home, channel);
    installs_cleaned_keeps(w, home, paths.active);
    let (cleaned, w1) = installs_cleaned(w, paths);
    let unclean = "nv: warning: installation committed, but cleanup failed: "@ + cleaned->Err_0;
    warned_keeps(w1, paths, unclean, staging);
    let w2 = match cleaned {
        Ok(()) => w1,
        Err(_) => warned(w1, unclean).1,
    };
    lemma_staging_gone(w2, home, channel, process, time);
    let (finished, w3) = staging_finished(w2, staging);
    let unfinished = "nv: warning: installation committed, but staging cleanup failed: "@
        + finished->Err_0;
    warned_keeps(w3, paths, unfinished, staging);
    let w4 = match finished {
        Ok(()) => w3,
        Err(_) => warned(w3, unfinished).1,
    };
    printed_keeps(
        w4,
        paths,
        "installed "@ + channel.name() + " "@ + record.version + " (release "@ + record.release
            + ")"@,
        staging,
    );
}

/// The directories of the state are complete exactly if each of them is a directory itself.
pub proof fn state_is_complete(w: World, paths: Seq<Seq<u8>>)
    ensures
        all_directories(w, paths) is Ok <==> forall|k: int|
            0 <= k < paths.len() ==> is_real(w.sight(#[trigger] paths[k])),
    decreases paths.len(),
{
    if paths.len() > 0 {
        let rest = paths.skip(1);
        state_is_complete(w, rest);
        if all_directories(w, paths) is Ok {
            assert forall|k: int| 0 <= k < paths.len() implies is_real(
                w.sight(#[trigger] paths[k]),
            ) by {
                if k > 0 {
                    assert(paths[k] == rest[k - 1]);
                }
            }
        }
        if forall|k: int| 0 <= k < paths.len() ==> is_real(w.sight(#[trigger] paths[k])) {
            assert(is_real(w.sight(paths[0])));
            assert forall|k: int| 0 <= k < rest.len() implies is_real(w.sight(#[trigger] rest[k])) by {
                assert(rest[k] == paths[k + 1]);
            }
        }
    }
}

/// Whether what is seen is a directory, and no link to one.
pub open spec fn is_real(sight: Sight) -> bool {
    sight matches Sight::Present(entry) && entry is Directory
}

/// A state of which only some directories are there is refused, by an installation too, and left as
/// it is.
pub proof fn incomplete_state_is_refused(w: World, paths: Places, setting: Setting, cli: Operation)
    requires
        exists|k: int| 0 <= k < 5 && (#[trigger] w.sight(layout(paths)[k])) is Present,
        exists|k: int| 0 <= k < 5 && !is_real(#[trigger] w.sight(layout(paths)[k])),
    ensures
        layout_ensured(w, paths).0 is Err,
        layout_ensured(w, paths).1 == w,
        operated(w, paths, setting, cli).0 is Err,
        operated(w, paths, setting, cli).1 == w,
{
    let all = layout(paths);
    state_is_complete(w, all);
    let j = choose|k: int| 0 <= k < 5 && (#[trigger] w.sight(all[k])) is Present;
    assert(w.sight(all[j]) is Present);
    assert(some_present(w, all));
    let k = choose|k: int| 0 <= k < 5 && !is_real(#[trigger] w.sight(all[k]));
    assert(!is_real(w.sight(all[k])));
}

/// A link is not replaced by way of a temporary one that was made for something else: that is
/// refused, and nothing is changed.
pub proof fn foreign_temporary_link_is_refused(w: World, link: Seq<u8>, name: Seq<char>, target: Seq<u8>)
    requires
        link_name(link) == Some(name),
        w.sight(link_draft(link, name)) is Present,
        !(w.sight(link_draft(link, name)) == Sight::Present(Entry::Symlink) && (w.target(
            link_draft(link, name),
        ) matches Ok(found) && pieces(found) == pieces(target))),
    ensures
        link_replaced(w, link, target).0 is Err,
        link_replaced(w, link, target).1 == w,
{
}

/// A channel is not put in use, nor installed for that, where the place of the executable is not
/// accepted.
pub proof fn use_needs_an_accepted_place(w: World, paths: Places, setting: Setting, channel: Channel)
    ensures
        destination(w, paths) is Err ==> channel_used(w, paths, setting, channel).0
            == destination(w, paths) && channel_used(w, paths, setting, channel).1 == w,
{
}

/// Whether an entry of the directory of releases holds a release.
pub open spec fn holds_release(w: World, paths: Places, name: Seq<u8>) -> bool {
    valid_utf8(name) && installation_at(w, paths, joined(paths.installs, name), None) is Ok
}

/// The releases that no channel selects are not removed while anything else is in their directory:
/// one entry that is no release stops the cleanup, before anything is removed.
pub proof fn foreign_entry_stops_the_cleanup(w: World, paths: Places, k: int)
    requires
        w.listing(paths.installs) matches Names::Names(names) && 0 <= k < names.len()
            && !holds_release(w, paths, names[k]),
    ensures
        installs_cleaned(w, paths).0 is Err,
        installs_cleaned(w, paths).1 == w,
{
    if let Names::Names(names) = w.listing(paths.installs) {
        if let Ok(states) = states_of(w, paths) {
            lemma_foreign_found(w, paths, states, names, k);
        }
    }
}

proof fn lemma_foreign_found(
    w: World,
    paths: Places,
    states: Seq<(Channel, Selected)>,
    names: Seq<Seq<u8>>,
    k: int,
)
    requires
        0 <= k < names.len(),
        !holds_release(w, paths, names[k]),
    ensures
        unreferenced(w, paths, states, names) is Err,
    decreases names.len(),
{
    if k > 0 {
        assert(names.skip(1)[k - 1] == names[k]);
        lemma_foreign_found(w, paths, states, names.skip(1), k - 1);
    }
}

/// A cleanup that fails does not undo an installation: it is only told of, as is a staging directory
/// that cannot be removed.
pub proof fn failed_cleanup_is_only_told(
    w: World,
    paths: Places,
    channel: Channel,
    record: Record,
    staging: Seq<u8>,
)
    ensures
        ({
            let (cleaned, w1) = installs_cleaned(w, paths);
            let w2 = match cleaned {
                Ok(()) => w1,
                Err(message) => w1.attempt(
                    Deed::Warn(
                        "nv: warning: installation committed, but cleanup failed: "@ + message,
                    ),
                ).1,
            };
            let (finished, w3) = staging_finished(w2, staging);
            let w4 = match finished {
                Ok(()) => w3,
                Err(message) => w3.attempt(
                    Deed::Warn(
                        "nv: warning: installation committed, but staging cleanup failed: "@
                            + message,
                    ),
                ).1,
            };
            let said = w4.attempt(
                Deed::Print(
                    "installed "@ + spelling(channel) + " "@ + record.version + " (release "@
                        + record.release + ")"@,
                ),
            );
            let (done, after) = install_concluded(w, paths, channel, record, staging);
            after == said.1 && (done is Ok <==> said.0 is Ok)
        }),
{
    reveal(install_concluded);
}

/// The status is told only of a state that is sound: its directories are complete, the link of the
/// channel in use leads to an installed channel or is missing, and while a channel is in use the
/// executable is the managed link.
pub proof fn status_wants_a_sound_state(w: World, paths: Places)
    requires
        status_printed(w, paths).0 is Ok,
    ensures
        forall|k: int| 0 <= k < 5 ==> is_real(#[trigger] w.sight(layout(paths)[k])),
        w.sight(paths.active) is Absent || is_managed_link(w, paths.nvim_link),
        active_channel(w, paths) is Ok,
{
    state_is_complete(w, layout(paths));
    assert forall|k: int| 0 <= k < 5 implies is_real(#[trigger] w.sight(layout(paths)[k])) by {
        assert(is_real(w.sight(layout(paths)[k])));
    }
    executable_is_nothing_or_the_managed_link(w, paths);
    channel_in_use_is_read(w, paths, Channel::Stable);
}

/// No channel is put in use over a link of the channel in use that leads elsewhere, and none is
/// removed while that link cannot be read; a channel in use is removed only with the managed
/// executable.
pub proof fn foreign_channel_link_is_refused(
    w: World,
    paths: Places,
    channel: Channel,
    selection: ChannelSelection,
)
    ensures
        active_channel(w, paths) is Err ==> channel_activated(w, paths, channel).0 is Err
            && channel_activated(w, paths, channel).1 == w,
        active_channel(w, paths) is Err ==> channels_removed(w, paths, selection).0 is Err
            && channels_removed(w, paths, selection).1 == w,
        channels_removed(w, paths, ChannelSelection::Channel(channel)).0 is Ok && active_channel(
            w,
            paths,
        ) == Ok::<Option<Channel>, Seq<char>>(Some(channel)) ==> is_managed_link(
            w,
            paths.nvim_link,
        ),
{
    executable_is_nothing_or_the_managed_link(w, paths);
    if let Ok(states) = removals(w, paths, ChannelSelection::Channel(channel)) {
        assert(states[0].0 == channel);
        assert(is_among(states, channel));
    }
}

/// A change is not begun unless the releases that it is to select are there.
pub proof fn change_wants_its_releases(w: World, paths: Places, change: Change)
    ensures
        installation_at(
            w,
            paths,
            joined(paths.installs, encode_utf8(change.current)),
            Some(change.channel),
        ) is Err ==> change_finished(w, paths, change).0 is Err && change_finished(
            w,
            paths,
            change,
        ).1 == w,
        change.previous matches Some(previous) ==> (installation_at(
            w,
            paths,
            joined(paths.installs, encode_utf8(previous)),
            Some(change.channel),
        ) is Err ==> change_finished(w, paths, change).0 is Err && change_finished(
            w,
            paths,
            change,
        ).1 == w),
{
}

/// What stands in the place of a note but is no regular file is refused, and nothing is changed.
pub proof fn foreign_note_is_refused(w: World, paths: Places)
    requires
        w.sight(paths.transaction) matches Sight::Present(entry) && !(entry is File),
    ensures
        change_recovered(w, paths).0 == Err::<(), Seq<char>>(
            "pointer transaction "@ + shown(paths.transaction) + " is not a regular file"@,
        ),
        change_recovered(w, paths).1 == w,
{
}

/// A download that fails is reported with what the other side has answered, if that is text, up to
/// four kibibytes of it.
pub proof fn failed_download_is_reported(
    w: World,
    setting: Setting,
    address: Seq<char>,
    response: Seq<u8>,
)
    ensures
        ({
            let (ran, after) = w.run(description_request(setting.version@, address, response));
            let (done, last) = downloaded(w, setting, address, response, true, 10485760, 60);
            let body = trimmed(after.head(response, 4096));
            &&& last == after
            &&& done is Ok <==> complied(ran)
            &&& ran matches Ok(ending) ==> (ending.code != Some(0i32) && body.len() > 0 ==> done
                == Err::<(), Seq<char>>(
                program_failure("curl"@, "HTTPS download"@, ending, Some(response))
                    + ("; response body: "@ + body),
            ))
            &&& ran matches Err(cause) ==> done == Err::<(), Seq<char>>(
                "failed to run curl for "@ + address + " into "@ + shown(response) + ": "@ + cause,
            )
        }),
{
    lemma_description_request(setting, address, response);
}

/// An operation is not begun where an interrupted change cannot be completed: the lock is given
/// back, and nothing else is done.
pub proof fn failed_recovery_stops_the_operation(
    w: World,
    paths: Places,
    setting: Setting,
    operation: Operation,
)
    ensures
        ({
            let held = lock_taken(w, paths, setting.process).1;
            let (recovered, v) = change_recovered(held, paths);
            let (done, after) = locked(w, paths, setting, operation);
            lock_taken(w, paths, setting.process).0 is Ok && recovered is Err ==> done is Err
                && after == lock_released(v, paths).1
        }),
{
}

/// The directories that nv makes are for the user alone: nobody else may read, write or enter the
/// state directory or that of the executable where nv has made them.
pub proof fn own_directories_are_private(w: World, paths: Places)
    requires
        paths.state.len() > 0,
        paths.local_bin.len() > 0,
    ensures
        w.sight(paths.state) is Absent && state_root_prepared(w, paths).0 is Ok ==> is_private(
            state_root_prepared(w, paths).1.nodes,
            paths.state,
        ),
        w.sight(paths.local_bin) is Absent && bin_prepared(w, paths).0 is Ok ==> is_private(
            bin_prepared(w, paths).1.nodes,
            paths.local_bin,
        ),
{
    lemma_made_private(w, paths.state);
    lemma_made_private(w, paths.local_bin);
}

/// Whether there is a directory at a path that nobody but its owner may use.
pub open spec fn is_private(nodes: Map<Seq<u8>, Node>, path: Seq<u8>) -> bool {
    at(nodes, path) matches Some(Node::Directory { mode }) && mode & 0o077 == 0
}

proof fn lemma_made_private(w: World, path: Seq<u8>)
    requires
        path.len() > 0,
    ensures
        w.sight(path) is Absent && private_made(w, path).0 is Ok ==> is_private(
            private_made(w, path).1.nodes,
            path,
        ),
{
    reveal(World::sight);
    reveal(World::attempt);
    let mask = w.outside.umask;
    assert((0o700u32 & !mask) & 0o077 == 0) by (bit_vector);
    assert(reaches(path, path));
}

/// The directories of the state are made one by one, each for the user alone.
pub proof fn state_directories_are_private(w: World, paths: Seq<Seq<u8>>, k: int)
    requires
        directories_made(w, paths).0 is Ok,
        0 <= k < paths.len(),
        paths[k].len() > 0,
        at(w.nodes, paths[k]) is None,
    ensures
        is_private(directories_made(w, paths).1.nodes, paths[k]),
    decreases paths.len(),
{
    lemma_stays_private(w, paths, paths[k], k);
}

proof fn lemma_stays_private(w: World, paths: Seq<Seq<u8>>, path: Seq<u8>, k: int)
    requires
        directories_made(w, paths).0 is Ok,
        path.len() > 0,
        at(w.nodes, path) is None || is_private(w.nodes, path),
        at(w.nodes, path) is None ==> 0 <= k < paths.len() && paths[k] == path,
    ensures
        is_private(directories_made(w, paths).1.nodes, path),
    decreases paths.len(),
{
    if paths.len() > 0 {
        let mask = w.outside.umask;
        let w1 = private_made(w, paths[0]).1;
        assert((0o700u32 & !mask) & 0o077 == 0) by (bit_vector);
        assert(w1.nodes == with_directories(w.nodes, paths[0], 0o700 & !mask)) by {
            reveal(World::attempt);
        }
        assert(reaches(path, path));
        if at(w1.nodes, path) is None {
            assert(k > 0);
            assert(paths.skip(1)[k - 1] == path);
        }
        lemma_stays_private(w1, paths.skip(1), path, k - 1);
    }
}

} // verus!
