//! What the command that removes channels promises on a machine on which nothing fails, from its
//! arguments to its end.

use vstd::prelude::*;
use vstd::utf8::*;

use crate::activation::{active_channel, exposure};
use crate::calm::{calm, lemma_calm_installation, lemma_calm_sight, lemma_calm_target};
use crate::channel::{channel_found_by_name, Channel, ChannelSelection};
use crate::cli::{command_line, Cli};
use crate::command_frames::{deactivated_keeps, selections_removed_keeps};
use crate::commands::{
    channels_removed, is_among, platform, removals, selections_removed, use_ended,
};
use crate::disk::{at, kept, no_slash, orderly, selection};
use crate::encoding::decoded;
use crate::frames::lock_taken_keeps;
use crate::host::{reaches, Node, World};
use crate::installation::{installation_at, state_of, states_of, Selected};
use crate::laws_command::nothing_pending;
use crate::laws_first::{dependable, words};
use crate::laws_locked::{lemma_lock_spared, lemma_lock_taken_calmly, operation_succeeds_with_lock};
use crate::laws_remove::{is_removed, lemma_links_are_links, removed_channels_are_gone};
use crate::laws_removed::{cleanable, installed_channels_are_removed, lemma_state_kept};
use crate::layout::{all_directories, lock_taken, state_root};
use crate::locate::{ascii, lemma_ascii, lemma_names, lemma_places};
use crate::path::{absolute, joined, SLASH};
use crate::paths::{layout, places_below, within, Places};
use crate::programs::Setting;
use crate::run::{locked, operated, program_run, Host, Operation};
use crate::separation::{lemma_active_spared, lemma_nvim_spared};

verus! {

/// Whether every entry of the directory of releases holds a release.
pub open spec fn well_kept(w: World, paths: Places) -> bool {
    &&& at(w.nodes, paths.installs) matches Some(node) && node is Directory
    &&& forall|name: Seq<u8>|
        no_slash(name) && #[trigger] at(w.nodes, joined(paths.installs, name)) is Some ==> decoded(
            name,
        ) is Ok && installation_at(w, paths, joined(paths.installs, name), None) is Ok
}

/// Whether the channels can be removed: the state is complete and not locked, no change is pending,
/// what is to be removed is installed, the executable is the managed one while a channel is in use,
/// and every entry of the directory of releases holds a release.
#[verifier::opaque]
pub open spec fn removable(w: World, paths: Places, selection: ChannelSelection) -> bool {
    &&& all_directories(w, layout(paths)) is Ok
    &&& at(w.nodes, paths.lock) is None
    &&& nothing_pending(w.nodes, paths)
    &&& states_of(w, paths) is Ok
    &&& removals(w, paths, selection) is Ok
    &&& active_channel(w, paths) matches Ok(active) && (active is Some ==> exposure(w, paths) is Ok)
    &&& well_kept(w, paths)
}

/// Whether the selected channels are removed: they have no links, and if the channel that was in
/// use is among them, neither the executable nor its link is there.
#[verifier::opaque]
pub open spec fn is_gone(
    before: World,
    nodes: Map<Seq<u8>, Node>,
    paths: Places,
    selection: ChannelSelection,
) -> bool {
    let states = removals(before, paths, selection)->Ok_0;
    let active = active_channel(before, paths)->Ok_0;
    &&& forall|k: int| 0 <= k < states.len() ==> is_removed(nodes, paths, (#[trigger] states[k]).0)
    &&& active is Some && is_among(states, active->0) ==> at(nodes, paths.active) is None && at(
        nodes,
        paths.nvim_link,
    ) is None
}

/// The arguments of the command that removes channels.
pub open spec fn removal_words(selection: ChannelSelection) -> Seq<Seq<u8>> {
    match selection {
        ChannelSelection::All => seq![encode_utf8("remove"@)],
        ChannelSelection::Channel(channel) => words("remove"@, channel),
    }
}

/// `nv remove` is understood.
proof fn lemma_removal_words(selection: ChannelSelection)
    ensures
        command_line(removal_words(selection)) == Ok::<Cli, Seq<char>>(Cli::Remove(selection)),
{
    lemma_names();
    reveal_strlit("install");
    reveal_strlit("use");
    reveal_strlit("rollback");
    reveal_strlit("update");
    reveal_strlit("remove");
    assert("remove"@[0] == 'r' && "remove"@[1] == 'e' && "rollback"@[1] == 'o');
    assert("install"@[0] == 'i' && "use"@[0] == 'u' && "update"@[0] == 'u');
    assert(is_ascii_chars("remove"@));
    lemma_ascii("remove"@);
    if let ChannelSelection::Channel(channel) = selection {
        lemma_ascii(channel.name());
        channel_found_by_name(channel);
    }
}

/// What is read of the paths is the same where they are the same on disk.
pub proof fn lemma_directories_same(before: World, after: World, paths: Seq<Seq<u8>>)
    requires
        calm(before.outside),
        forall|k: int| 0 <= k < paths.len() ==> kept(before, after, #[trigger] paths[k]),
        all_directories(before, paths) is Ok,
    ensures
        all_directories(after, paths) is Ok,
    decreases paths.len(),
{
    if paths.len() > 0 {
        let rest = paths.skip(1);
        assert(kept(before, after, paths[0]));
        lemma_calm_sight(before, paths[0]);
        lemma_calm_sight(after, paths[0]);
        assert forall|k: int| 0 <= k < rest.len() implies kept(before, after, #[trigger] rest[k]) by {
            assert(rest[k] == paths[k + 1]);
        }
        lemma_directories_same(before, after, rest);
    }
}

/// What nv reads before a removal is the same where nothing has changed but the lock.
pub proof fn lemma_read_with_lock(before: World, after: World, home: Seq<u8>)
    requires
        absolute(home),
        calm(before.outside),
        forall|path: Seq<u8>|
            path != places_below(home).lock ==> #[trigger] kept(before, after, path),
        states_of(before, places_below(home)) is Ok,
        active_channel(before, places_below(home)) is Ok,
        all_directories(before, layout(places_below(home))) is Ok,
    ensures
        states_of(after, places_below(home)) == states_of(before, places_below(home)),
        state_of(after, places_below(home), Channel::Stable) == state_of(
            before,
            places_below(home),
            Channel::Stable,
        ),
        state_of(after, places_below(home), Channel::Nightly) == state_of(
            before,
            places_below(home),
            Channel::Nightly,
        ),
        active_channel(after, places_below(home)) == active_channel(before, places_below(home)),
        exposure(before, places_below(home)) is Ok ==> exposure(after, places_below(home)) is Ok,
        all_directories(after, layout(places_below(home))) is Ok,
{
    let paths = places_below(home);
    lemma_lock_spared(home, Channel::Stable);
    lemma_lock_spared(home, Channel::Nightly);
    lemma_state_kept(before, after, home, Channel::Stable);
    lemma_state_kept(before, after, home, Channel::Nightly);
    assert(kept(before, after, paths.active));
    assert(kept(before, after, paths.nvim_link));
    lemma_calm_sight(before, paths.active);
    lemma_calm_sight(after, paths.active);
    lemma_calm_sight(before, paths.nvim_link);
    lemma_calm_sight(after, paths.nvim_link);
    if let Some(Node::Link { target }) = at(before.nodes, paths.active) {
        lemma_calm_target(before, paths.active, target);
        lemma_calm_target(after, paths.active, target);
    }
    if let Some(Node::Link { target }) = at(before.nodes, paths.nvim_link) {
        lemma_calm_target(before, paths.nvim_link, target);
        lemma_calm_target(after, paths.nvim_link, target);
    }
    assert forall|k: int| 0 <= k < layout(paths).len() implies kept(
        before,
        after,
        #[trigger] layout(paths)[k],
    ) by {
        assert(reaches(paths.lock, paths.lock));
        assert(!reaches(paths.lock, layout(paths)[k]));
    }
    lemma_directories_same(before, after, layout(paths));
}

/// What is below an entry of a directory is in the directory.
proof fn lemma_deep(top: Seq<u8>, name: Seq<u8>, text: Seq<char>)
    requires
        top.len() > 0,
        top.last() != SLASH,
        no_slash(name),
        !absolute(encode_utf8(text)),
    ensures
        reaches(top, joined(top, name)),
        reaches(top, within(joined(top, name), text)),
{
    let path = joined(top, name);
    let deep = within(path, text);
    assert(!absolute(name));
    assert(path == top.push(SLASH) + name);
    assert(path.take(top.len() as int) =~= top);
    assert(deep.take(top.len() as int) =~= top);
    assert(deep[top.len() as int] == path[top.len() as int]);
}

/// The releases can be cleaned up where each was one and none has changed.
proof fn lemma_cleanable_on(before: World, after: World, home: Seq<u8>)
    requires
        absolute(home),
        dependable(before.outside, places_below(home)),
        forall|path: Seq<u8>|
            reaches(places_below(home).installs, path) ==> #[trigger] kept(before, after, path),
        well_kept(before, places_below(home)),
    ensures
        cleanable(after, places_below(home)),
{
    let paths = places_below(home);
    let names = (after.outside.order)(after.nodes, paths.installs);
    lemma_places(home);
    reveal_strlit("bin/nvim");
    reveal_strlit(".nv-metadata");
    lemma_ascii("bin/nvim"@);
    lemma_ascii(".nv-metadata"@);
    assert(ascii("bin/nvim"@)[0] == 98);
    assert(ascii(".nv-metadata"@)[0] == 46);
    assert(reaches(paths.installs, paths.installs));
    assert(kept(before, after, paths.installs));
    assert((after.outside.broken)(after.moment, after.nodes, paths.installs) is None);
    assert(names.no_duplicates());
    assert forall|k: int| 0 <= k < names.len() implies decoded(#[trigger] names[k]) is Ok
        && installation_at(after, paths, joined(paths.installs, names[k]), None) is Ok by {
        let name = names[k];
        let path = joined(paths.installs, name);
        assert(no_slash(name));
        assert(at(after.nodes, path) is Some);
        lemma_deep(paths.installs, name, "bin/nvim"@);
        lemma_deep(paths.installs, name, ".nv-metadata"@);
        assert(kept(before, after, path));
        assert(kept(before, after, within(path, "bin/nvim"@)));
        assert(kept(before, after, within(path, ".nv-metadata"@)));
        assert(at(before.nodes, joined(paths.installs, name)) is Some);
        lemma_calm_installation(before, after, paths, path, None);
    }
}

/// The links are removed without a change to the releases.
proof fn lemma_releases_left(w: World, home: Seq<u8>, states: Seq<(Channel, Selected)>, path: Seq<u8>)
    requires
        absolute(home),
        orderly(w.outside, places_below(home)),
        reaches(places_below(home).installs, path),
    ensures
        ({
            let paths = places_below(home);
            let unused = use_ended(w, paths, states).1;
            kept(w, selections_removed(unused, paths, states).1, path)
        }),
{
    let paths = places_below(home);
    lemma_names();
    lemma_links_are_links(home);
    lemma_active_spared(home, Channel::Stable);
    lemma_nvim_spared(home, Channel::Stable);
    deactivated_keeps(w, paths, path);
    let unused = use_ended(w, paths, states).1;
    selections_removed_keeps(unused, paths, states, path);
}

/// Channels that are installed are removed once the lock is taken.
proof fn lemma_removed_with_lock(w: World, home: Seq<u8>, process: u32, selection: ChannelSelection)
    requires
        absolute(home),
        dependable(w.outside, places_below(home)),
        removable(w, places_below(home), selection),
    ensures
        ({
            let paths = places_below(home);
            let held = lock_taken(w, paths, process).1;
            &&& held.outside == w.outside
            &&& all_directories(held, layout(paths)) is Ok
            &&& removals(held, paths, selection) == removals(w, paths, selection)
            &&& active_channel(held, paths) == active_channel(w, paths)
            &&& channels_removed(held, paths, selection).0 is Ok
        }),
{
    reveal(removable);
    let paths = places_below(home);
    let states = removals(w, paths, selection)->Ok_0;
    let held = lock_taken(w, paths, process).1;
    lemma_lock_taken_calmly(w, paths, process);
    assert forall|path: Seq<u8>| path != paths.lock implies #[trigger] kept(w, held, path) by {
        lock_taken_keeps(w, paths, process, path);
    }
    lemma_read_with_lock(w, held, home);
    assert(removals(held, paths, selection) == removals(w, paths, selection));
    let unused = use_ended(held, paths, states).1;
    let bare = selections_removed(unused, paths, states).1;
    lemma_lock_spared(home, Channel::Stable);
    assert forall|path: Seq<u8>| reaches(paths.installs, path) implies #[trigger] kept(
        w,
        bare,
        path,
    ) by {
        lemma_releases_left(held, home, states, path);
        assert(kept(w, held, path));
    }
    lemma_cleanable_on(w, bare, home);
    installed_channels_are_removed(held, home, selection);
}

/// What a removal comes to stays when the lock is given back.
proof fn lemma_removed_stays(before: World, after: World, home: Seq<u8>, channel: Channel)
    requires
        absolute(home),
        is_removed(before.nodes, places_below(home), channel),
        forall|path: Seq<u8>|
            path != places_below(home).lock ==> #[trigger] kept(before, after, path),
    ensures
        is_removed(after.nodes, places_below(home), channel),
{
    let paths = places_below(home);
    lemma_lock_spared(home, channel);
    assert(kept(before, after, paths.link_of(channel, "current"@)));
    assert(kept(before, after, paths.link_of(channel, "previous"@)));
}

/// Once the lock is taken, a removal leaves nothing of the channels.
proof fn lemma_gone_with_lock(w: World, home: Seq<u8>, process: u32, selection: ChannelSelection)
    requires
        absolute(home),
        dependable(w.outside, places_below(home)),
        removable(w, places_below(home), selection),
    ensures
        ({
            let paths = places_below(home);
            let held = lock_taken(w, paths, process).1;
            let (done, after) = channels_removed(held, paths, selection);
            &&& all_directories(held, layout(paths)) is Ok
            &&& done is Ok
            &&& is_gone(w, after.nodes, paths, selection)
        }),
{
    let paths = places_below(home);
    let held = lock_taken(w, paths, process).1;
    lemma_removed_with_lock(w, home, process, selection);
    removed_channels_are_gone(held, home, selection);
    reveal(is_gone);
}

/// What a removal comes to stays when the lock is given back.
proof fn lemma_gone_stays(
    w: World,
    before: World,
    after: World,
    home: Seq<u8>,
    selection: ChannelSelection,
)
    requires
        absolute(home),
        is_gone(w, before.nodes, places_below(home), selection),
        forall|path: Seq<u8>|
            path != places_below(home).lock ==> #[trigger] kept(before, after, path),
    ensures
        is_gone(w, after.nodes, places_below(home), selection),
{
    let paths = places_below(home);
    let states = removals(w, paths, selection)->Ok_0;
    reveal(is_gone);
    lemma_lock_spared(home, Channel::Stable);
    assert(kept(before, after, paths.active));
    assert(kept(before, after, paths.nvim_link));
    assert forall|k: int| 0 <= k < states.len() implies is_removed(
        after.nodes,
        paths,
        (#[trigger] states[k]).0,
    ) by {
        lemma_removed_stays(before, after, home, states[k].0);
    }
}

/// Channels that are installed are removed with the lock around it.
proof fn lemma_removal_locked(w: World, home: Seq<u8>, setting: Setting, selection: ChannelSelection)
    requires
        absolute(home),
        dependable(w.outside, places_below(home)),
        removable(w, places_below(home), selection),
    ensures
        ({
            let paths = places_below(home);
            let (done, after) = locked(w, paths, setting, Operation::Remove(selection));
            &&& done is Ok
            &&& is_gone(w, after.nodes, paths, selection)
            &&& at(after.nodes, paths.lock) is None
        }),
{
    let paths = places_below(home);
    let operation = Operation::Remove(selection);
    let held = lock_taken(w, paths, setting.process).1;
    lemma_gone_with_lock(w, home, setting.process, selection);
    let before = channels_removed(held, paths, selection).1;
    assert(operated(held, paths, setting, operation) == channels_removed(held, paths, selection));
    assert(at(w.nodes, paths.lock) is None && nothing_pending(w.nodes, paths)) by {
        reveal(removable);
    }
    operation_succeeds_with_lock(w, home, setting, operation);
    lemma_gone_stays(w, before, locked(w, paths, setting, operation).1, home, selection);
}

/// `nv remove` comes to a removal with the lock around it.
proof fn lemma_removal_run(w: World, host: Host, home: Seq<u8>, selection: ChannelSelection)
    requires
        platform(host.os@, host.arch@) is Ok,
        host.home.deep_view() == Some(home),
        absolute(home),
        state_root(w, places_below(home)) is Ok,
    ensures
        program_run(w, host, removal_words(selection)) == locked(
            w,
            places_below(home),
            host.setting,
            Operation::Remove(selection),
        ),
{
    lemma_removal_words(selection);
}

/// In a state that is as nv leaves it, on a machine on which nothing fails, `nv remove` succeeds for
/// channels that are installed, and nothing of them is left: neither their links nor, with the
/// channel in use, the executable.
pub proof fn removal_command_succeeds(
    w: World,
    host: Host,
    home: Seq<u8>,
    selection: ChannelSelection,
)
    requires
        platform(host.os@, host.arch@) is Ok,
        host.home.deep_view() == Some(home),
        absolute(home),
        dependable(w.outside, places_below(home)),
        state_root(w, places_below(home)) is Ok,
        removable(w, places_below(home), selection),
    ensures
        ({
            let paths = places_below(home);
            let (done, after) = program_run(w, host, removal_words(selection));
            &&& done is Ok
            &&& is_gone(w, after.nodes, paths, selection)
            &&& at(after.nodes, paths.lock) is None
        }),
{
    lemma_removal_run(w, host, home, selection);
    lemma_removal_locked(w, home, host.setting, selection);
}

} // verus!
