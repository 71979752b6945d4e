//! What each command leaves as it was, whether it succeeds or not.

use vstd::prelude::*;
use vstd::utf8::*;

use crate::activation::{
    active_channel, active_target, bin_prepared, channel_activated, channel_selected, deactivated,
    nvim_linked,
};
use crate::changes::concerns;
use crate::channel::{Channel, ChannelSelection};
use crate::cleanup::installs_cleaned;
use crate::commands::{
    channel_or_none, channel_rolled_back, channels_installed, channels_updated, installed_states,
    lines_printed, removals_told, selection_removed, selections_removed, status_lines,
    status_printed, swap, unused_removed,
};
use crate::disk::{kept, lemma_attempted, orderly};
use crate::frames::{
    change_committed_keeps, link_replaced_keeps, printed_keeps, private_made_keeps, synced_keeps,
};
use crate::host::{reaches, Deed, World};
use crate::install::channel_installed;
use crate::install_frames::{channel_installed_keeps, installs_cleaned_keeps};
use crate::installation::{state_of, states_of, Selected};
use crate::layout::{printed, synced};
use crate::locate::{below, draft_name, lemma_names, lemma_places};
use crate::path::absolute;
use crate::paths::{places_below, NVIM_LINK_TARGET, Places};
use crate::pointers::{change_committed, link_replaced};
use crate::programs::Setting;
use crate::separation::spared;

verus! {

/// The places that are touched when a channel is put in use.
pub open spec fn use_concerns(paths: Places, path: Seq<u8>) -> bool {
    ||| reaches(paths.active, path)
    ||| reaches(below(paths.state, draft_name("active"@)), path)
    ||| reaches(paths.nvim_link, path)
    ||| reaches(below(paths.local_bin, draft_name("nvim"@)), path)
    ||| reaches(path, paths.local_bin)
}

proof fn nvim_linked_keeps(w: World, home: Seq<u8>, path: Seq<u8>)
    requires
        absolute(home),
        orderly(w.outside, places_below(home)),
        !use_concerns(places_below(home), path),
    ensures
        kept(w, nvim_linked(w, places_below(home)).1, path),
{
    let paths = places_below(home);
    lemma_places(home);
    lemma_names();
    private_made_keeps(w, paths, paths.local_bin, path);
    let w1 = bin_prepared(w, paths).1;
    let target = encode_utf8(NVIM_LINK_TARGET@);
    link_replaced_keeps(w1, paths, paths.local_bin, "nvim"@, target, path);
    let w2 = link_replaced(w1, paths.nvim_link, target).1;
    synced_keeps(w2, paths, paths.local_bin, path);
}

proof fn channel_selected_keeps(
    w: World,
    home: Seq<u8>,
    channel: Channel,
    line: Seq<char>,
    path: Seq<u8>,
)
    requires
        absolute(home),
        orderly(w.outside, places_below(home)),
        !use_concerns(places_below(home), path),
    ensures
        kept(w, channel_selected(w, places_below(home), channel, line).1, path),
{
    let paths = places_below(home);
    lemma_places(home);
    lemma_names();
    link_replaced_keeps(w, paths, paths.state, "active"@, active_target(channel), path);
    let w1 = link_replaced(w, paths.active, active_target(channel)).1;
    synced_keeps(w1, paths, paths.state, path);
    let w2 = synced(w1, paths.state).1;
    printed_keeps(w2, paths, line, path);
}

/// To put a channel in use changes nothing beside the link of the channel in use, the executable,
/// their drafts, and the directories above the executable.
pub proof fn channel_activated_keeps(w: World, home: Seq<u8>, channel: Channel, path: Seq<u8>)
    requires
        absolute(home),
        orderly(w.outside, places_below(home)),
        !use_concerns(places_below(home), path),
    ensures
        kept(w, channel_activated(w, places_below(home), channel).1, path),
{
    let paths = places_below(home);
    nvim_linked_keeps(w, home, path);
    let w1 = nvim_linked(w, paths).1;
    if let Ok(selected) = state_of(w, paths, channel) {
        let current = selected.current->0;
        let line = "using "@ + channel.name() + " "@ + current.record.version + " (release "@
            + current.record.release + ")"@;
        channel_selected_keeps(w1, home, channel, line, path);
    }
}

/// To take the executable away changes nothing else but the link of the channel in use.
pub proof fn deactivated_keeps(w: World, paths: Places, path: Seq<u8>)
    requires
        orderly(w.outside, paths),
        path != paths.active,
        path != paths.nvim_link,
    ensures
        kept(w, deactivated(w, paths).1, path),
{
    lemma_attempted(w, paths, Deed::RemoveFile(paths.active), path);
    let w1 = w.attempt(Deed::RemoveFile(paths.active)).1;
    synced_keeps(w1, paths, paths.state, path);
    let w2 = synced(w1, paths.state).1;
    lemma_attempted(w2, paths, Deed::RemoveFile(paths.nvim_link), path);
    let w3 = w2.attempt(Deed::RemoveFile(paths.nvim_link)).1;
    synced_keeps(w3, paths, paths.local_bin, path);
}

/// To remove the links of a channel changes nothing else.
pub proof fn selection_removed_keeps(
    w: World,
    paths: Places,
    channel: Channel,
    selected: Selected,
    path: Seq<u8>,
)
    requires
        orderly(w.outside, paths),
        path != paths.link_of(channel, "current"@),
        path != paths.link_of(channel, "previous"@),
    ensures
        kept(w, selection_removed(w, paths, channel, selected).1, path),
{
    let previous = Deed::RemoveFile(paths.link_of(channel, "previous"@));
    let current = Deed::RemoveFile(paths.link_of(channel, "current"@));
    let directory = paths.directory_of(channel);
    lemma_attempted(w, paths, previous, path);
    let w1 = w.attempt(previous).1;
    lemma_attempted(w, paths, current, path);
    lemma_attempted(w1, paths, current, path);
    synced_keeps(w.attempt(current).1, paths, directory, path);
    synced_keeps(w1.attempt(current).1, paths, directory, path);
}

/// To remove the links of channels changes nothing else.
pub proof fn selections_removed_keeps(
    w: World,
    paths: Places,
    states: Seq<(Channel, Selected)>,
    path: Seq<u8>,
)
    requires
        orderly(w.outside, paths),
        forall|k: int|
            0 <= k < states.len() ==> path != paths.link_of((#[trigger] states[k]).0, "current"@)
                && path != paths.link_of(states[k].0, "previous"@),
    ensures
        kept(w, selections_removed(w, paths, states).1, path),
    decreases states.len(),
{
    if states.len() > 0 {
        selection_removed_keeps(w, paths, states[0].0, states[0].1, path);
        assert forall|k: int| 0 <= k < states.skip(1).len() implies path != paths.link_of(
            (#[trigger] states.skip(1)[k]).0,
            "current"@,
        ) && path != paths.link_of(states.skip(1)[k].0, "previous"@) by {
            assert(states.skip(1)[k] == states[k + 1]);
        }
        selections_removed_keeps(
            selection_removed(w, paths, states[0].0, states[0].1).1,
            paths,
            states.skip(1),
            path,
        );
    }
}

pub proof fn removals_told_keeps(
    w: World,
    paths: Places,
    states: Seq<(Channel, Selected)>,
    path: Seq<u8>,
)
    requires
        orderly(w.outside, paths),
    ensures
        kept(w, removals_told(w, states).1, path),
    decreases states.len(),
{
    if states.len() > 0 {
        let line = "removed "@ + states[0].0.name();
        printed_keeps(w, paths, line, path);
        removals_told_keeps(printed(w, line).1, paths, states.skip(1), path);
    }
}

/// To remove channels that are not in use changes nothing beside their links and the directory of
/// releases.
pub proof fn unused_removed_keeps(
    w: World,
    home: Seq<u8>,
    states: Seq<(Channel, Selected)>,
    path: Seq<u8>,
)
    requires
        absolute(home),
        orderly(w.outside, places_below(home)),
        !reaches(places_below(home).installs, path),
        forall|k: int|
            0 <= k < states.len() ==> path != places_below(home).link_of(
                (#[trigger] states[k]).0,
                "current"@,
            ) && path != places_below(home).link_of(states[k].0, "previous"@),
    ensures
        kept(w, unused_removed(w, places_below(home), states).1, path),
{
    let paths = places_below(home);
    selections_removed_keeps(w, paths, states, path);
    let w1 = selections_removed(w, paths, states).1;
    installs_cleaned_keeps(w1, home, path);
    let w2 = installs_cleaned(w1, paths).1;
    removals_told_keeps(w2, paths, states, path);
}

pub proof fn lines_printed_keeps(w: World, paths: Places, lines: Seq<Seq<char>>, path: Seq<u8>)
    requires
        orderly(w.outside, paths),
    ensures
        kept(w, lines_printed(w, lines).1, path),
    decreases lines.len(),
{
    if lines.len() > 0 {
        printed_keeps(w, paths, lines[0], path);
        lines_printed_keeps(printed(w, lines[0]).1, paths, lines.skip(1), path);
    }
}

/// The status leaves the disk as it is.
pub proof fn status_printed_keeps(w: World, paths: Places, path: Seq<u8>)
    requires
        orderly(w.outside, paths),
    ensures
        kept(w, status_printed(w, paths).1, path),
{
    if let Ok(active) = active_channel(w, paths) {
        let line = "active: "@ + channel_or_none(active);
        printed_keeps(w, paths, line, path);
        let w1 = printed(w, line).1;
        if let Ok(states) = states_of(w1, paths) {
            lines_printed_keeps(
                w1,
                paths,
                status_lines(states[0].0, states[0].1) + status_lines(states[1].0, states[1].1),
                path,
            );
        }
    }
}

/// A rollback changes nothing beside the links of the channel, their drafts and the note.
pub proof fn channel_rolled_back_keeps(w: World, home: Seq<u8>, channel: Channel, path: Seq<u8>)
    requires
        absolute(home),
        orderly(w.outside, places_below(home)),
        !concerns(places_below(home), channel, path),
    ensures
        kept(w, channel_rolled_back(w, places_below(home), channel).1, path),
{
    let paths = places_below(home);
    if let Ok(selected) = state_of(w, paths, channel) {
        let change = swap(channel, selected.current->0, selected.previous->0);
        change_committed_keeps(w, home, change, path);
        let w1 = change_committed(w, paths, change).1;
        synced_keeps(w1, paths, paths.directory_of(channel), path);
        let w2 = synced(w1, paths.directory_of(channel)).1;
        if let Ok(after) = state_of(w1, paths, channel) {
            let current = after.current->0;
            printed_keeps(
                w2,
                paths,
                "rolled back "@ + channel.name() + " to "@ + current.record.version
                    + " (release "@ + current.record.release + ")"@,
                path,
            );
        }
    }
}

proof fn channels_installed_keeps(
    w: World,
    home: Seq<u8>,
    setting: Setting,
    states: Seq<(Channel, Selected)>,
    path: Seq<u8>,
)
    requires
        absolute(home),
        orderly(w.outside, places_below(home)),
        forall|k: int|
            0 <= k < states.len() ==> spared(
                places_below(home),
                (#[trigger] states[k]).0,
                path,
            ),
    ensures
        kept(w, channels_installed(w, places_below(home), setting, states).1, path),
    decreases states.len(),
{
    if states.len() > 0 {
        channel_installed_keeps(w, home, setting, states[0].0, path);
        assert forall|k: int| 0 <= k < states.skip(1).len() implies spared(
            places_below(home),
            (#[trigger] states.skip(1)[k]).0,
            path,
        ) by {
            assert(states.skip(1)[k] == states[k + 1]);
        }
        channels_installed_keeps(
            channel_installed(w, places_below(home), setting, states[0].0).1,
            home,
            setting,
            states.skip(1),
            path,
        );
    }
}

/// An update changes nothing that nv manages beside its staging directory, the directory of
/// releases, and the links of the channels.
pub proof fn channels_updated_keeps(
    w: World,
    home: Seq<u8>,
    setting: Setting,
    selection: ChannelSelection,
    path: Seq<u8>,
)
    requires
        absolute(home),
        orderly(w.outside, places_below(home)),
        spared(places_below(home), Channel::Stable, path),
        spared(places_below(home), Channel::Nightly, path),
    ensures
        kept(w, channels_updated(w, places_below(home), setting, selection).1, path),
{
    let paths = places_below(home);
    match selection {
        ChannelSelection::Channel(channel) => {
            channel_installed_keeps(w, home, setting, channel, path);
        },
        ChannelSelection::All => {
            if let Ok(states) = states_of(w, paths) {
                let installed = installed_states(states);
                assert forall|k: int| 0 <= k < installed.len() implies spared(
                    paths,
                    (#[trigger] installed[k]).0,
                    path,
                ) by {
                    if installed[k].0 == Channel::Stable {
                    } else {
                        assert(installed[k].0 == Channel::Nightly);
                    }
                }
                channels_installed_keeps(w, home, setting, installed, path);
            }
        },
    }
}

} // verus!
