//! What commands tell on the terminal once they have succeeded.

use vstd::prelude::*;
use vstd::utf8::*;

use crate::activation::{active_target, bin_prepared, channel_activated, deactivated, nvim_linked};
use crate::channel::{Channel, ChannelSelection};
use crate::cleanup::{installs_cleaned, trees_removed, unreferenced};
use crate::commands::{
    channel_rolled_back, channels_removed, is_among, removals, removals_told, selection_removed,
    selections_removed, swap, use_ended,
};
use crate::disk::{lemma_stored, selection};
use crate::host::{Deed, Line, Names, World};
use crate::install::{install_concluded, missing_installed};
use crate::installation::{state_of, states_of, Selected};
use crate::laws_status::{
    holds, is_described, lemma_pointer_described, lemma_silent, only_told, printed_line_is_told,
    told_lines,
};
use crate::laws_words::spelling;
use crate::layout::{printed, synced};
use crate::metadata::Record;
use crate::path::joined;
use crate::paths::{link_target, within, NVIM_LINK_TARGET, Places};
use crate::pointers::{
    change_closed, change_committed, change_finished, link_draft, link_name, link_replaced,
    note_written, transaction_draft,
};
use crate::programs::Setting;
use crate::text::lines;
use crate::transaction::{change_text, Change};

verus! {

proof fn lemma_synced_silent(w: World, path: Seq<u8>)
    ensures
        synced(w, path).1.output == w.output,
{
    lemma_silent(w, Deed::SyncDirectory(path));
}

proof fn lemma_created_silent(w: World, path: Seq<u8>)
    ensures
        w.create(path).1.output == w.output,
{
    reveal(World::create);
}

proof fn lemma_link_silent(w: World, link: Seq<u8>, target: Seq<u8>)
    ensures
        link_replaced(w, link, target).1.output == w.output,
{
    if let Some(name) = link_name(link) {
        let draft = link_draft(link, name);
        let make = Deed::Link(target, draft);
        let w1 = w.attempt(make).1;
        lemma_silent(w, make);
        lemma_silent(w, Deed::Rename(draft, link));
        lemma_silent(w.attempt(Deed::Rename(draft, link)).1, Deed::RemoveFile(draft));
        lemma_silent(w1, Deed::Rename(draft, link));
        lemma_silent(w1.attempt(Deed::Rename(draft, link)).1, Deed::RemoveFile(draft));
    }
}

proof fn lemma_exposure_silent(w: World, paths: Places)
    ensures
        nvim_linked(w, paths).1.output == w.output,
{
    let target = encode_utf8(NVIM_LINK_TARGET@);
    lemma_silent(w, Deed::MakePrivateDirectories(paths.local_bin));
    let w1 = bin_prepared(w, paths).1;
    lemma_link_silent(w1, paths.nvim_link, target);
    lemma_synced_silent(link_replaced(w1, paths.nvim_link, target).1, paths.local_bin);
}

/// A release that a channel selects is named, with its version, as it is on disk.
pub open spec fn names_selected(
    w: World,
    paths: Places,
    channel: Channel,
    which: Seq<char>,
    release: Seq<char>,
    version: Seq<char>,
) -> bool {
    &&& selection(w.nodes, paths, channel, which) == Some(spelling(channel) + "-"@ + release)
    &&& is_described(
        w,
        joined(paths.installs, encode_utf8(spelling(channel) + "-"@ + release)),
        release,
        version,
    )
}

/// What a channel is read to select is on disk.
pub proof fn selected_release_is_on_disk(w: World, paths: Places, channel: Channel)
    ensures
        state_of(w, paths, channel) matches Ok(selected) ==> {
            &&& selected.current matches Some(current) ==> names_selected(
                w,
                paths,
                channel,
                "current"@,
                current.record.release,
                current.record.version,
            )
            &&& selected.previous matches Some(previous) ==> names_selected(
                w,
                paths,
                channel,
                "previous"@,
                previous.record.release,
                previous.record.version,
            )
        },
{
    reveal(state_of);
    if let Ok(selected) = state_of(w, paths, channel) {
        if let Some(current) = selected.current {
            lemma_pointer_described(w, paths, channel, "current"@, current);
        }
        if let Some(previous) = selected.previous {
            lemma_pointer_described(w, paths, channel, "previous"@, previous);
        }
    }
}

/// Putting a channel in use tells which release is used: the current one of that channel.
pub proof fn use_is_told(w: World, paths: Places, channel: Channel)
    requires
        channel_activated(w, paths, channel).0 is Ok,
    ensures
        exists|release: Seq<char>, version: Seq<char>|
            {
                &&& #[trigger] names_selected(w, paths, channel, "current"@, release, version)
                &&& channel_activated(w, paths, channel).1.output == w.output.push(
                    Line::Told(
                        "using "@ + spelling(channel) + " "@ + version + " (release "@ + release
                            + ")"@,
                    ),
                )
            },
{
    let current = state_of(w, paths, channel)->Ok_0.current->0;
    let line = "using "@ + spelling(channel) + " "@ + current.record.version + " (release "@
        + current.record.release + ")"@;
    selected_release_is_on_disk(w, paths, channel);
    lemma_exposure_silent(w, paths);
    let w1 = nvim_linked(w, paths).1;
    lemma_link_silent(w1, paths.active, active_target(channel));
    let w2 = link_replaced(w1, paths.active, active_target(channel)).1;
    lemma_synced_silent(w2, paths.state);
    printed_line_is_told(synced(w2, paths.state).1, line);
    assert(names_selected(
        w,
        paths,
        channel,
        "current"@,
        current.record.release,
        current.record.version,
    ));
}

/// A channel that is installed is not installed again, and told of instead.
pub proof fn installed_channel_is_told(
    w: World,
    paths: Places,
    setting: Setting,
    channel: Channel,
)
    requires
        state_of(w, paths, channel) matches Ok(selected) && selected.current is Some,
        missing_installed(w, paths, setting, channel).0 is Ok,
    ensures
        ({
            let after = missing_installed(w, paths, setting, channel).1;
            &&& after.nodes == w.nodes
            &&& exists|release: Seq<char>, version: Seq<char>|
                {
                    &&& #[trigger] names_selected(w, paths, channel, "current"@, release, version)
                    &&& after.output == w.output.push(
                        Line::Told(
                            spelling(channel) + " is already installed: "@ + version + " (release "@
                                + release + ")"@,
                        ),
                    )
                }
        }),
{
    let current = state_of(w, paths, channel)->Ok_0.current->0;
    let line = spelling(channel) + " is already installed: "@ + current.record.version
        + " (release "@ + current.record.release + ")"@;
    selected_release_is_on_disk(w, paths, channel);
    printed_line_is_told(w, line);
    assert(names_selected(
        w,
        paths,
        channel,
        "current"@,
        current.record.release,
        current.record.version,
    ));
}

proof fn lemma_note_silent(w: World, paths: Places, change: Change)
    ensures
        note_written(w, paths, change).1.output == w.output,
{
    let draft = transaction_draft(paths);
    let write = Deed::Write(draft, change_text(change));
    let publish = Deed::Rename(draft, paths.transaction);
    lemma_created_silent(w, draft);
    let w1 = w.create(draft).1;
    lemma_silent(w1, write);
    let w2 = w1.attempt(write).1;
    lemma_silent(w2, Deed::RemoveFile(draft));
    lemma_silent(w2, Deed::SyncFile(draft));
    let w3 = w2.attempt(Deed::SyncFile(draft)).1;
    lemma_silent(w3, Deed::RemoveFile(draft));
    lemma_silent(w3, publish);
    lemma_synced_silent(w3.attempt(publish).1, paths.state);
}

proof fn lemma_closing_silent(w: World, paths: Places, change: Change)
    ensures
        change_closed(w, paths, change).1.output == w.output,
{
    let directory = paths.directory_of(change.channel);
    let remove = Deed::RemoveFile(paths.transaction);
    lemma_synced_silent(w, directory);
    let w1 = synced(w, directory).1;
    lemma_silent(w1, remove);
    lemma_synced_silent(w1.attempt(remove).1, paths.state);
}

proof fn lemma_finish_silent(w: World, paths: Places, change: Change)
    ensures
        change_finished(w, paths, change).1.output == w.output,
{
    let current = paths.link_of(change.channel, "current"@);
    let target = link_target(change.current);
    lemma_link_silent(w, current, target);
    lemma_closing_silent(link_replaced(w, current, target).1, paths, change);
    if let Some(previous) = change.previous {
        let link = paths.link_of(change.channel, "previous"@);
        lemma_link_silent(w, link, link_target(previous));
        let w1 = link_replaced(w, link, link_target(previous)).1;
        lemma_link_silent(w1, current, target);
        lemma_closing_silent(link_replaced(w1, current, target).1, paths, change);
    }
}

proof fn lemma_change_silent(w: World, paths: Places, change: Change)
    ensures
        change_committed(w, paths, change).1.output == w.output,
{
    lemma_note_silent(w, paths, change);
    lemma_finish_silent(note_written(w, paths, change).1, paths, change);
}

/// A rollback tells which release is current now.
pub proof fn rollback_is_told(w: World, paths: Places, channel: Channel)
    requires
        channel_rolled_back(w, paths, channel).0 is Ok,
    ensures
        ({
            let after = channel_rolled_back(w, paths, channel).1;
            exists|release: Seq<char>, version: Seq<char>|
                {
                    &&& #[trigger] names_selected(
                        after,
                        paths,
                        channel,
                        "current"@,
                        release,
                        version,
                    )
                    &&& after.output == w.output.push(
                        Line::Told(
                            "rolled back "@ + spelling(channel) + " to "@ + version + " (release "@
                                + release + ")"@,
                        ),
                    )
                }
        }),
{
    let selected = state_of(w, paths, channel)->Ok_0;
    let change = swap(channel, selected.current->0, selected.previous->0);
    let directory = paths.directory_of(channel);
    lemma_change_silent(w, paths, change);
    let w1 = change_committed(w, paths, change).1;
    let record = state_of(w1, paths, channel)->Ok_0.current->0.record;
    let line = "rolled back "@ + spelling(channel) + " to "@ + record.version + " (release "@
        + record.release + ")"@;
    selected_release_is_on_disk(w1, paths, channel);
    lemma_synced_silent(w1, directory);
    lemma_stored(w1, Deed::SyncDirectory(directory));
    let w2 = synced(w1, directory).1;
    printed_line_is_told(w2, line);
    let after = channel_rolled_back(w, paths, channel).1;
    lemma_same_description(
        w1,
        after,
        joined(paths.installs, encode_utf8(spelling(channel) + "-"@ + record.release)),
        record.release,
        record.version,
    );
    assert(names_selected(after, paths, channel, "current"@, record.release, record.version));
}

proof fn lemma_same_description(
    before: World,
    after: World,
    path: Seq<u8>,
    release: Seq<char>,
    version: Seq<char>,
)
    requires
        after.nodes == before.nodes,
        after.outside == before.outside,
        is_described(before, path, release, version),
    ensures
        is_described(after, path, release, version),
{
    let text = choose|text: Seq<char>| #[trigger]
        holds(before, within(path, ".nv-metadata"@), text) && lines(text).contains(
            "release="@ + release,
        ) && lines(text).contains("version="@ + version);
    assert(holds(after, within(path, ".nv-metadata"@), text));
}

/// An installation that has let a channel select a release tells which one, last of all.
pub proof fn installation_is_told(
    w: World,
    paths: Places,
    channel: Channel,
    record: Record,
    staging: Seq<u8>,
)
    requires
        install_concluded(w, paths, channel, record, staging).0 is Ok,
    ensures
        ({
            let output = install_concluded(w, paths, channel, record, staging).1.output;
            output.len() > 0 && output.last() == Line::Told(
                "installed "@ + spelling(channel) + " "@ + record.version + " (release "@
                    + record.release + ")"@,
            )
        }),
{
    reveal(install_concluded);
    reveal(World::attempt);
}

/// The lines that tell of a removal.
pub open spec fn removal_lines(states: Seq<(Channel, Selected)>) -> Seq<Seq<char>> {
    Seq::new(states.len(), |k: int| "removed "@ + spelling(states[k].0))
}

proof fn lemma_removals_told(w: World, states: Seq<(Channel, Selected)>)
    ensures
        removals_told(w, states).0 is Ok ==> only_told(
            w,
            removals_told(w, states).1,
            removal_lines(states),
        ),
    decreases states.len(),
{
    if states.len() > 0 {
        let line = "removed "@ + spelling(states[0].0);
        let rest = states.skip(1);
        printed_line_is_told(w, line);
        lemma_removals_told(printed(w, line).1, rest);
        assert(w.output.push(Line::Told(line)) + told_lines(removal_lines(rest)) =~= w.output
            + told_lines(removal_lines(states)));
    } else {
        assert(w.output + told_lines(removal_lines(states)) =~= w.output);
    }
}

proof fn lemma_trees_silent(w: World, trees: Seq<Seq<u8>>)
    ensures
        trees_removed(w, trees).1.output == w.output,
    decreases trees.len(),
{
    if trees.len() > 0 {
        lemma_silent(w, Deed::RemoveTree(trees[0]));
        lemma_trees_silent(w.attempt(Deed::RemoveTree(trees[0])).1, trees.skip(1));
    }
}

proof fn lemma_cleanup_silent(w: World, paths: Places)
    ensures
        installs_cleaned(w, paths).1.output == w.output,
{
    if let Ok(states) = states_of(w, paths) {
        if let Names::Names(names) = w.listing(paths.installs) {
            if let Ok(trees) = unreferenced(w, paths, states, names) {
                lemma_trees_silent(w, trees);
                lemma_synced_silent(trees_removed(w, trees).1, paths.installs);
            }
        }
    }
}

proof fn lemma_links_silent(w: World, paths: Places, states: Seq<(Channel, Selected)>)
    ensures
        selections_removed(w, paths, states).1.output == w.output,
    decreases states.len(),
{
    if states.len() > 0 {
        let (channel, selected) = states[0];
        let previous = Deed::RemoveFile(paths.link_of(channel, "previous"@));
        let current = Deed::RemoveFile(paths.link_of(channel, "current"@));
        let w1 = if selected.previous is Some {
            w.attempt(previous).1
        } else {
            w
        };
        lemma_silent(w, previous);
        lemma_silent(w1, current);
        lemma_synced_silent(w1.attempt(current).1, paths.directory_of(channel));
        lemma_links_silent(selection_removed(w, paths, channel, selected).1, paths, states.skip(1));
    }
}

proof fn lemma_deactivation_silent(w: World, paths: Places)
    ensures
        deactivated(w, paths).1.output == w.output,
{
    lemma_silent(w, Deed::RemoveFile(paths.active));
    let w1 = w.attempt(Deed::RemoveFile(paths.active)).1;
    lemma_synced_silent(w1, paths.state);
    let w2 = synced(w1, paths.state).1;
    lemma_silent(w2, Deed::RemoveFile(paths.nvim_link));
    lemma_synced_silent(w2.attempt(Deed::RemoveFile(paths.nvim_link)).1, paths.local_bin);
}

/// A removal tells of each channel that was removed, one line for each, and of nothing else. What is
/// removed is the channel that is named, or all that are installed if none is.
pub proof fn removal_is_told(w: World, paths: Places, selection: ChannelSelection)
    requires
        channels_removed(w, paths, selection).0 is Ok,
    ensures
        removals(w, paths, selection) matches Ok(states) && {
            &&& channels_removed(w, paths, selection).1.output == w.output + told_lines(
                removal_lines(states),
            )
            &&& match selection {
                ChannelSelection::Channel(channel) => states.len() == 1 && states[0].0 == channel,
                ChannelSelection::All => forall|channel: Channel| #[trigger]
                    is_among(states, channel) <==> (state_of(w, paths, channel) matches Ok(selected)
                        && selected.current is Some),
            }
        },
{
    let states = removals(w, paths, selection)->Ok_0;
    lemma_deactivation_silent(w, paths);
    let w1 = use_ended(w, paths, states).1;
    lemma_links_silent(w1, paths, states);
    let w2 = selections_removed(w1, paths, states).1;
    lemma_cleanup_silent(w2, paths);
    let w3 = installs_cleaned(w2, paths).1;
    lemma_removals_told(w3, states);
    if selection is All {
        let all = states_of(w, paths)->Ok_0;
        let wanted = |entry: (Channel, Selected)| entry.1.current is Some;
        let stable = state_of(w, paths, Channel::Stable)->Ok_0;
        let nightly = state_of(w, paths, Channel::Nightly)->Ok_0;
        lemma_two_filtered(all, wanted);
        assert(all[0] == (Channel::Stable, stable) && all[1] == (Channel::Nightly, nightly));
        assert(states == all.filter(wanted));
        assert forall|channel: Channel| #[trigger] is_among(states, channel) <==> (state_of(
            w,
            paths,
            channel,
        ) matches Ok(selected) && selected.current is Some) by {
            if stable.current is Some {
                assert(states[0] == all[0]);
            }
            if nightly.current is Some {
                assert(states[states.len() - 1] == all[1]);
            }
        }
    }
}

pub proof fn lemma_two_filtered(
    list: Seq<(Channel, Selected)>,
    wanted: spec_fn((Channel, Selected)) -> bool,
)
    requires
        list.len() == 2,
    ensures
        list.filter(wanted) == (if wanted(list[0]) {
            seq![list[0]]
        } else {
            seq![]
        }) + (if wanted(list[1]) {
            seq![list[1]]
        } else {
            seq![]
        }),
{
    let one = list.drop_last();
    let none = one.drop_last();
    reveal(Seq::filter);
    assert(none.filter(wanted).len() == 0);
    assert(one.filter(wanted) =~= if wanted(list[0]) {
        seq![list[0]]
    } else {
        seq![]
    });
    assert(list.filter(wanted) =~= (if wanted(list[0]) {
        seq![list[0]]
    } else {
        seq![]
    }) + (if wanted(list[1]) {
        seq![list[1]]
    } else {
        seq![]
    }));
}

} // verus!
