//! What the removal of channels and of releases promises.

use vstd::prelude::*;
use vstd::utf8::*;

use crate::activation::{active_channel, deactivated};
use crate::changes::lemma_channel_places;
use crate::channel::{Channel, ChannelSelection};
use crate::cleanup::{installs_cleaned, refers};
use crate::command_frames::{
    deactivated_keeps, removals_told_keeps, selection_removed_keeps, selections_removed_keeps,
    unused_removed_keeps,
};
use crate::commands::{
    channels_removed, is_among, removals, removals_told, selection_removed, selections_removed,
    unused_removed, use_ended,
};
use crate::disk::{at, kept, lemma_done, lemma_removed, lemma_stored, no_slash, orderly, selection};
use crate::encoding::decoded;
use crate::host::{reaches, Deed, Node, World};
use crate::install_frames::installs_cleaned_keeps;
use crate::installation::{state_of, states_of, Selected};
use crate::laws::lemma_state_selects;
use crate::laws_cleanup::{cleanup_leaves_only_selected, lists_all};
use crate::laws_install::is_selected;
use crate::layout::synced;
use crate::locate::{is_name, lemma_apart, lemma_names, lemma_places};
use crate::path::{absolute, joined};
use crate::paths::{places_below, Places};
use crate::separation::{
    lemma_active_spared, lemma_in_state, lemma_link_place, lemma_links_spared, lemma_nvim_spared,
    lemma_parting, lemma_state_bytes,
};

verus! {

/// After the executable was taken away, neither it nor the link of the channel in use is there.
proof fn lemma_deactivated(w: World, home: Seq<u8>)
    requires
        absolute(home),
        deactivated(w, places_below(home)).0 is Ok,
    ensures
        at(deactivated(w, places_below(home)).1.nodes, places_below(home).active) is None,
        at(deactivated(w, places_below(home)).1.nodes, places_below(home).nvim_link) is None,
        deactivated(w, places_below(home)).1.outside == w.outside,
{
    let paths = places_below(home);
    lemma_places(home);
    assert(paths.active.take(paths.state.len() as int) =~= paths.state);
    lemma_parting(home, paths.active);
    lemma_removed(w, paths.active);
    let w1 = w.attempt(Deed::RemoveFile(paths.active)).1;
    lemma_stored(w1, Deed::SyncDirectory(paths.state));
    let w2 = synced(w1, paths.state).1;
    lemma_removed(w2, paths.nvim_link);
    lemma_done(w2, Deed::RemoveFile(paths.nvim_link), paths.active);
    let w3 = w2.attempt(Deed::RemoveFile(paths.nvim_link)).1;
    lemma_stored(w3, Deed::SyncDirectory(paths.local_bin));
}

/// Whether a channel has no links.
pub open spec fn is_removed(nodes: Map<Seq<u8>, Node>, paths: Places, channel: Channel) -> bool {
    &&& at(nodes, paths.link_of(channel, "current"@)) is None
    &&& at(nodes, paths.link_of(channel, "previous"@)) is None
}

proof fn lemma_selection_removed(w: World, home: Seq<u8>, channel: Channel, selected: Selected)
    requires
        absolute(home),
        selection_removed(w, places_below(home), channel, selected).0 is Ok,
        selected.previous is None ==> at(
            w.nodes,
            places_below(home).link_of(channel, "previous"@),
        ) is None,
    ensures
        is_removed(
            selection_removed(w, places_below(home), channel, selected).1.nodes,
            places_below(home),
            channel,
        ),
        selection_removed(w, places_below(home), channel, selected).1.outside == w.outside,
{
    let paths = places_below(home);
    let current = paths.link_of(channel, "current"@);
    let previous = paths.link_of(channel, "previous"@);
    lemma_channel_places(home, channel);
    let w1 = if selected.previous is Some {
        w.attempt(Deed::RemoveFile(previous)).1
    } else {
        w
    };
    if selected.previous is Some {
        lemma_removed(w, previous);
    }
    lemma_removed(w1, current);
    assert(previous != current);
    lemma_done(w1, Deed::RemoveFile(current), previous);
    let w2 = w1.attempt(Deed::RemoveFile(current)).1;
    lemma_stored(w2, Deed::SyncDirectory(paths.directory_of(channel)));
}

/// The links of different channels are different.
pub proof fn lemma_links_differ(home: Seq<u8>, channel: Channel, other: Channel)
    requires
        absolute(home),
        channel != other,
    ensures
        ({
            let paths = places_below(home);
            let current = paths.link_of(other, "current"@);
            let previous = paths.link_of(other, "previous"@);
            &&& current != paths.link_of(channel, "current"@)
            &&& current != paths.link_of(channel, "previous"@)
            &&& previous != paths.link_of(channel, "current"@)
            &&& previous != paths.link_of(channel, "previous"@)
        }),
{
    lemma_names();
    lemma_channel_places(home, channel);
    lemma_links_spared(home, channel, other, "current"@);
    lemma_links_spared(home, channel, other, "previous"@);
}

/// Whether the links that are missing in a list of states are missing on disk.
pub open spec fn truly_missing(
    nodes: Map<Seq<u8>, Node>,
    paths: Places,
    states: Seq<(Channel, Selected)>,
) -> bool {
    forall|k: int|
        0 <= k < states.len() && (#[trigger] states[k]).1.previous is None ==> at(
            nodes,
            paths.link_of(states[k].0, "previous"@),
        ) is None
}

pub proof fn lemma_selections_removed(w: World, home: Seq<u8>, states: Seq<(Channel, Selected)>)
    requires
        absolute(home),
        orderly(w.outside, places_below(home)),
        selections_removed(w, places_below(home), states).0 is Ok,
        truly_missing(w.nodes, places_below(home), states),
    ensures
        forall|k: int|
            0 <= k < states.len() ==> is_removed(
                selections_removed(w, places_below(home), states).1.nodes,
                places_below(home),
                (#[trigger] states[k]).0,
            ),
        selections_removed(w, places_below(home), states).1.outside == w.outside,
    decreases states.len(),
{
    let paths = places_below(home);
    if states.len() > 0 {
        let (channel, selected) = states[0];
        let rest = states.skip(1);
        let w1 = selection_removed(w, paths, channel, selected).1;
        let after = selections_removed(w, paths, states).1;
        lemma_selection_removed(w, home, channel, selected);
        assert forall|k: int|
            0 <= k < rest.len() && (#[trigger] rest[k]).1.previous is None implies at(
            w1.nodes,
            paths.link_of(rest[k].0, "previous"@),
        ) is None by {
            assert(rest[k] == states[k + 1]);
            if rest[k].0 != channel {
                lemma_links_differ(home, channel, rest[k].0);
                selection_removed_keeps(
                    w,
                    paths,
                    channel,
                    selected,
                    paths.link_of(rest[k].0, "previous"@),
                );
            }
        }
        lemma_selections_removed(w1, home, rest);
        if exists|k: int| 0 <= k < rest.len() && (#[trigger] rest[k]).0 == channel {
        } else {
            assert forall|k: int| 0 <= k < rest.len() implies paths.link_of(channel, "current"@)
                != paths.link_of((#[trigger] rest[k]).0, "current"@) && paths.link_of(
                channel,
                "current"@,
            ) != paths.link_of(rest[k].0, "previous"@) && paths.link_of(channel, "previous"@)
                != paths.link_of(rest[k].0, "current"@) && paths.link_of(channel, "previous"@)
                != paths.link_of(rest[k].0, "previous"@) by {
                lemma_links_differ(home, rest[k].0, channel);
            }
            selections_removed_keeps(w1, paths, rest, paths.link_of(channel, "current"@));
            selections_removed_keeps(w1, paths, rest, paths.link_of(channel, "previous"@));
        }
        assert forall|k: int| 0 <= k < states.len() implies is_removed(
            after.nodes,
            paths,
            (#[trigger] states[k]).0,
        ) by {
            if k > 0 {
                assert(states[k] == rest[k - 1]);
            }
        }
    }
}

/// What is left of a list was in it.
proof fn lemma_filtered<A>(list: Seq<A>, wanted: spec_fn(A) -> bool, k: int)
    requires
        0 <= k < list.filter(wanted).len(),
    ensures
        list.contains(list.filter(wanted)[k]),
    decreases list.len(),
{
    reveal(Seq::filter);
    if list.len() > 0 {
        let rest = list.drop_last();
        if k < rest.filter(wanted).len() {
            lemma_filtered(rest, wanted, k);
            let j = choose|j: int| 0 <= j < rest.len() && rest[j] == rest.filter(wanted)[k];
            assert(list[j] == list.filter(wanted)[k]);
        } else {
            assert(list[list.len() - 1] == list.filter(wanted)[k]);
        }
    }
}

/// What is to be removed is what the channels select.
pub proof fn lemma_removals(w: World, paths: Places, selected: ChannelSelection)
    ensures
        removals(w, paths, selected) matches Ok(states) ==> {
            &&& forall|k: int|
                0 <= k < states.len() ==> state_of(w, paths, (#[trigger] states[k]).0) == Ok::<
                    Selected,
                    Seq<char>,
                >(states[k].1)
            &&& truly_missing(w.nodes, paths, states)
        },
{
    if let Ok(states) = removals(w, paths, selected) {
        if selected is All {
            let all = states_of(w, paths)->Ok_0;
            let installed = |entry: (Channel, Selected)| entry.1.current is Some;
            assert forall|k: int| 0 <= k < states.len() implies state_of(
                w,
                paths,
                (#[trigger] states[k]).0,
            ) == Ok::<Selected, Seq<char>>(states[k].1) by {
                lemma_filtered(all, installed, k);
            }
        }
        assert forall|k: int|
            0 <= k < states.len() && (#[trigger] states[k]).1.previous is None implies at(
            w.nodes,
            paths.link_of(states[k].0, "previous"@),
        ) is None by {
            lemma_state_selects(w, paths, states[k].0);
        }
    }
}

/// The end of the use of a channel, with what it leaves.
proof fn lemma_use_ended(w: World, home: Seq<u8>, states: Seq<(Channel, Selected)>, path: Seq<u8>)
    requires
        absolute(home),
        orderly(w.outside, places_below(home)),
        use_ended(w, places_below(home), states).0 is Ok,
        path != places_below(home).active,
        path != places_below(home).nvim_link,
    ensures
        ({
            let paths = places_below(home);
            let after = use_ended(w, paths, states).1;
            let active = active_channel(w, paths);
            &&& kept(w, after, path)
            &&& active is Ok
            &&& if active->Ok_0 is Some && is_among(states, active->Ok_0->0) {
                at(after.nodes, paths.active) is None && at(after.nodes, paths.nvim_link) is None
            } else {
                after == w
            }
        }),
{
    let paths = places_below(home);
    deactivated_keeps(w, paths, path);
    if deactivated(w, paths).0 is Ok {
        lemma_deactivated(w, home);
    }
}

/// What the removal of channels comes to.
pub open spec fn removed(
    before: World,
    after: World,
    paths: Places,
    states: Seq<(Channel, Selected)>,
) -> bool {
    let active = active_channel(before, paths);
    &&& forall|k: int|
        0 <= k < states.len() ==> is_removed(after.nodes, paths, (#[trigger] states[k]).0)
    &&& forall|channel: Channel| #[trigger]
        is_among(states, channel) || (kept(before, after, paths.link_of(channel, "current"@))
            && kept(before, after, paths.link_of(channel, "previous"@)))
    &&& if active->Ok_0 is Some && is_among(states, active->Ok_0->0) {
        at(after.nodes, paths.active) is None && at(after.nodes, paths.nvim_link) is None
    } else {
        kept(before, after, paths.active) && kept(before, after, paths.nvim_link)
    }
}

/// After a removal has succeeded, the removed channels have no links. If the channel in use is
/// among them, the executable and the link of the channel in use are gone too; otherwise both are
/// as they were. The links of the other channels are as they were.
pub proof fn removed_channels_are_gone(w: World, home: Seq<u8>, selected: ChannelSelection)
    requires
        absolute(home),
        orderly(w.outside, places_below(home)),
        channels_removed(w, places_below(home), selected).0 is Ok,
    ensures
        removals(w, places_below(home), selected) is Ok,
        removed(
            w,
            channels_removed(w, places_below(home), selected).1,
            places_below(home),
            removals(w, places_below(home), selected)->Ok_0,
        ),
{
    let paths = places_below(home);
    let after = channels_removed(w, paths, selected).1;
    let states = removals(w, paths, selected)->Ok_0;
    let w1 = use_ended(w, paths, states).1;
    let w2 = selections_removed(w1, paths, states).1;
    let w3 = installs_cleaned(w2, paths).1;
    lemma_names();
    lemma_removals(w, paths, selected);
    lemma_links_are_links(home);
    lemma_use_ended(w, home, states, paths.link_of(Channel::Stable, "current"@));
    lemma_use_ended(w, home, states, paths.link_of(Channel::Stable, "previous"@));
    lemma_use_ended(w, home, states, paths.link_of(Channel::Nightly, "current"@));
    lemma_use_ended(w, home, states, paths.link_of(Channel::Nightly, "previous"@));
    assert(truly_missing(w1.nodes, paths, states));
    lemma_selections_removed(w1, home, states);
    assert forall|k: int| 0 <= k < states.len() implies is_removed(
        after.nodes,
        paths,
        (#[trigger] states[k]).0,
    ) by {
        let channel = states[k].0;
        lemma_end_keeps(w2, home, states, paths.link_of(channel, "current"@));
        lemma_end_keeps(w2, home, states, paths.link_of(channel, "previous"@));
    }
    assert forall|channel: Channel| #[trigger]
        is_among(states, channel) || (kept(w, after, paths.link_of(channel, "current"@)) && kept(
            w,
            after,
            paths.link_of(channel, "previous"@),
        )) by {
        if !is_among(states, channel) {
            assert forall|k: int| 0 <= k < states.len() implies (#[trigger] states[k]).0
                != channel by {}
            lemma_others_kept(w1, home, states, channel);
        }
    }
    lemma_unused_keeps(w1, home, states, paths.active);
    lemma_unused_keeps(w1, home, states, paths.nvim_link);
}

/// The links of the channels are neither the link of the channel in use nor the executable, and
/// not among the releases.
pub proof fn lemma_links_are_links(home: Seq<u8>)
    requires
        absolute(home),
    ensures
        ({
            let paths = places_below(home);
            forall|channel: Channel, name: Seq<char>|
                is_name(name) ==> {
                    let link = #[trigger] paths.link_of(channel, name);
                    &&& link != paths.active
                    &&& link != paths.nvim_link
                    &&& !reaches(paths.installs, link)
                }
        }),
{
    let paths = places_below(home);
    assert forall|channel: Channel, name: Seq<char>| is_name(name) implies {
        let link = #[trigger] paths.link_of(channel, name);
        &&& link != paths.active
        &&& link != paths.nvim_link
        &&& !reaches(paths.installs, link)
    } by {
        let link = paths.link_of(channel, name);
        lemma_link_place(home, channel, name);
        lemma_state_bytes(home, channel);
        lemma_in_state(home, channel);
        lemma_apart(link, paths.active, paths.state.len() as int + 1);
        assert(reaches(paths.state, link));
        lemma_parting(home, link);
    }
}

/// The last part of a removal leaves the links as they are.
proof fn lemma_end_keeps(w: World, home: Seq<u8>, states: Seq<(Channel, Selected)>, path: Seq<u8>)
    requires
        absolute(home),
        orderly(w.outside, places_below(home)),
        !reaches(places_below(home).installs, path),
    ensures
        ({
            let w1 = installs_cleaned(w, places_below(home)).1;
            kept(w, removals_told(w1, states).1, path)
        }),
{
    let paths = places_below(home);
    installs_cleaned_keeps(w, home, path);
    removals_told_keeps(installs_cleaned(w, paths).1, paths, states, path);
}

proof fn lemma_others_kept(
    w: World,
    home: Seq<u8>,
    states: Seq<(Channel, Selected)>,
    channel: Channel,
)
    requires
        absolute(home),
        orderly(w.outside, places_below(home)),
        forall|k: int| 0 <= k < states.len() ==> (#[trigger] states[k]).0 != channel,
    ensures
        ({
            let paths = places_below(home);
            let after = unused_removed(w, paths, states).1;
            &&& kept(w, after, paths.link_of(channel, "current"@))
            &&& kept(w, after, paths.link_of(channel, "previous"@))
        }),
{
    let paths = places_below(home);
    lemma_names();
    lemma_links_are_links(home);
    assert forall|k: int| 0 <= k < states.len() implies paths.link_of(channel, "current"@)
        != paths.link_of((#[trigger] states[k]).0, "current"@) && paths.link_of(
        channel,
        "current"@,
    ) != paths.link_of(states[k].0, "previous"@) && paths.link_of(channel, "previous"@)
        != paths.link_of(states[k].0, "current"@) && paths.link_of(channel, "previous"@)
        != paths.link_of(states[k].0, "previous"@) by {
        lemma_links_differ(home, states[k].0, channel);
    }
    unused_removed_keeps(w, home, states, paths.link_of(channel, "current"@));
    unused_removed_keeps(w, home, states, paths.link_of(channel, "previous"@));
}

proof fn lemma_unused_keeps(
    w: World,
    home: Seq<u8>,
    states: Seq<(Channel, Selected)>,
    path: Seq<u8>,
)
    requires
        absolute(home),
        orderly(w.outside, places_below(home)),
        path == places_below(home).active || path == places_below(home).nvim_link,
    ensures
        kept(w, unused_removed(w, places_below(home), states).1, path),
{
    let paths = places_below(home);
    lemma_names();
    lemma_links_are_links(home);
    lemma_active_spared(home, Channel::Stable);
    lemma_nvim_spared(home, Channel::Stable);
    assert forall|k: int| 0 <= k < states.len() implies path != paths.link_of(
        (#[trigger] states[k]).0,
        "current"@,
    ) && path != paths.link_of(states[k].0, "previous"@) by {}
    unused_removed_keeps(w, home, states, path);
}

/// After a removal has succeeded, every entry of the directory of releases is a release that a link
/// of a channel selects.
pub proof fn removal_leaves_only_selected(
    w: World,
    home: Seq<u8>,
    selected: ChannelSelection,
    name: Seq<u8>,
)
    requires
        absolute(home),
        orderly(w.outside, places_below(home)),
        channels_removed(w, places_below(home), selected).0 is Ok,
        ({
            let paths = places_below(home);
            let states = removals(w, paths, selected)->Ok_0;
            let unused = use_ended(w, paths, states).1;
            lists_all(selections_removed(unused, paths, states).1, paths)
        }),
        no_slash(name),
        name.len() > 0,
        at(
            channels_removed(w, places_below(home), selected).1.nodes,
            joined(places_below(home).installs, name),
        ) is Some,
    ensures
        decoded(name) matches Ok(text) && is_selected(
            channels_removed(w, places_below(home), selected).1.nodes,
            places_below(home),
            text,
        ),
{
    let paths = places_below(home);
    let after = channels_removed(w, paths, selected).1;
    let states = removals(w, paths, selected)->Ok_0;
    let w1 = use_ended(w, paths, states).1;
    let w2 = selections_removed(w1, paths, states).1;
    let w3 = installs_cleaned(w2, paths).1;
    lemma_names();
    lemma_links_are_links(home);
    lemma_removals(w, paths, selected);
    lemma_use_ended(w, home, states, paths.link_of(Channel::Stable, "current"@));
    lemma_use_ended(w, home, states, paths.link_of(Channel::Stable, "previous"@));
    lemma_use_ended(w, home, states, paths.link_of(Channel::Nightly, "current"@));
    lemma_use_ended(w, home, states, paths.link_of(Channel::Nightly, "previous"@));
    assert(truly_missing(w1.nodes, paths, states));
    lemma_selections_removed(w1, home, states);
    installs_cleaned_keeps(w2, home, paths.link_of(Channel::Stable, "current"@));
    removals_told_keeps(w3, paths, states, joined(paths.installs, name));
    cleanup_leaves_only_selected(w2, home, name);
    let left = states_of(w2, paths)->Ok_0;
    let text = decoded(name)->Ok_0;
    let k = choose|k: int| 0 <= k < left.len() && refers((#[trigger] left[k]).1, text);
    let owner = left[k].0;
    lemma_state_selects(w2, paths, owner);
    lemma_end_keeps(w2, home, states, paths.link_of(owner, "current"@));
    lemma_end_keeps(w2, home, states, paths.link_of(owner, "previous"@));
    assert(selection(after.nodes, paths, owner, "current"@) == selection(
        w2.nodes,
        paths,
        owner,
        "current"@,
    ));
    assert(selection(after.nodes, paths, owner, "previous"@) == selection(
        w2.nodes,
        paths,
        owner,
        "previous"@,
    ));
}

} // verus!
