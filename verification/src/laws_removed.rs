//! What a removal promises on a calm machine.

use vstd::prelude::*;

use crate::activation::{active_channel, deactivated, exposure};
use crate::calm::{calm, lemma_calm_attempt, lemma_calm_sight};
use crate::changes::lemma_channel_places;
use crate::channel::{Channel, ChannelSelection};
use crate::cleanup::{installs_cleaned, referenced, trees_removed, unreferenced};
use crate::command_frames::{deactivated_keeps, selection_removed_keeps, selections_removed_keeps};
use crate::commands::{
    channels_removed, is_among, removals, removals_told, selection_removed, selections_removed,
    use_ended,
};
use crate::disk::{at, kept, lemma_done, lemma_stored, no_slash, orderly, selection};
use crate::encoding::decoded;
use crate::host::{reaches, Deed, Names, Node, World};
use crate::install_frames::installs_cleaned_keeps;
use crate::installation::{installation_at, pointer_of, state_of, states_of, Selected};
use crate::laws::lemma_state_selects;
use crate::laws_cleanup::{is_unreferenced, lemma_trees};
use crate::laws_remove::{
    lemma_links_are_links, lemma_links_differ, lemma_removals, lemma_selections_removed,
    truly_missing,
};
use crate::layout::{printed, synced};
use crate::locate::{is_name, is_place, lemma_distinct_trees, lemma_names, lemma_places};
use crate::path::{absolute, joined, SLASH};
use crate::paths::{places_below, Places};
use crate::recovery::lemma_state_same;
use crate::separation::{lemma_active_spared, lemma_nvim_spared, lemma_parting, lemma_release_parts};

verus! {

/// Whether what a channel selects is there as links.
pub open spec fn linked(
    nodes: Map<Seq<u8>, Node>,
    paths: Places,
    channel: Channel,
    selected: Selected,
) -> bool {
    &&& at(nodes, paths.link_of(channel, "current"@)) matches Some(node) && node is Link
    &&& selected.previous is Some ==> (at(nodes, paths.link_of(channel, "previous"@)) matches Some(
        node,
    ) && node is Link)
}

/// Whether no channel is in a list twice.
pub open spec fn distinct(states: Seq<(Channel, Selected)>) -> bool {
    forall|j: int, k: int|
        0 <= j < k < states.len() ==> (#[trigger] states[j]).0 != (#[trigger] states[k]).0
}

proof fn lemma_selection_removed_calmly(w: World, home: Seq<u8>, channel: Channel, selected: Selected)
    requires
        absolute(home),
        calm(w.outside),
        linked(w.nodes, places_below(home), channel, selected),
    ensures
        selection_removed(w, places_below(home), channel, selected).0 is Ok,
        selection_removed(w, places_below(home), channel, selected).1.outside == w.outside,
{
    let paths = places_below(home);
    let current = paths.link_of(channel, "current"@);
    let previous = paths.link_of(channel, "previous"@);
    lemma_channel_places(home, channel);
    assert(previous != current);
    if selected.previous is Some {
        lemma_calm_attempt(w, Deed::RemoveFile(previous));
        lemma_done(w, Deed::RemoveFile(previous), current);
    }
    let w1 = if selected.previous is Some {
        w.attempt(Deed::RemoveFile(previous)).1
    } else {
        w
    };
    assert(at(w1.nodes, current) == at(w.nodes, current));
    lemma_calm_attempt(w1, Deed::RemoveFile(current));
    let w2 = w1.attempt(Deed::RemoveFile(current)).1;
    lemma_calm_attempt(w2, Deed::SyncDirectory(paths.directory_of(channel)));
}

proof fn lemma_selections_removed_calmly(w: World, home: Seq<u8>, states: Seq<(Channel, Selected)>)
    requires
        absolute(home),
        calm(w.outside),
        orderly(w.outside, places_below(home)),
        distinct(states),
        forall|k: int|
            0 <= k < states.len() ==> linked(
                w.nodes,
                places_below(home),
                (#[trigger] states[k]).0,
                states[k].1,
            ),
    ensures
        selections_removed(w, places_below(home), states).0 is Ok,
        selections_removed(w, places_below(home), states).1.outside == w.outside,
    decreases states.len(),
{
    let paths = places_below(home);
    if states.len() > 0 {
        let (channel, selected) = states[0];
        let rest = states.skip(1);
        let w1 = selection_removed(w, paths, channel, selected).1;
        lemma_selection_removed_calmly(w, home, channel, selected);
        assert forall|k: int| 0 <= k < rest.len() implies linked(
            w1.nodes,
            paths,
            (#[trigger] rest[k]).0,
            rest[k].1,
        ) by {
            let other = rest[k].0;
            assert(rest[k] == states[k + 1]);
            assert(states[0].0 != states[k + 1].0);
            lemma_links_differ(home, channel, other);
            selection_removed_keeps(w, paths, channel, selected, paths.link_of(other, "current"@));
            selection_removed_keeps(w, paths, channel, selected, paths.link_of(other, "previous"@));
        }
        assert(distinct(rest)) by {
            assert forall|j: int, k: int| 0 <= j < k < rest.len() implies (#[trigger] rest[j]).0
                != (#[trigger] rest[k]).0 by {
                assert(rest[j] == states[j + 1] && rest[k] == states[k + 1]);
            }
        }
        lemma_selections_removed_calmly(w1, home, rest);
    }
}

/// No channel is removed twice.
proof fn lemma_removals_distinct(w: World, paths: Places, selection: ChannelSelection)
    ensures
        removals(w, paths, selection) matches Ok(states) ==> distinct(states) && forall|k: int|
            0 <= k < states.len() ==> (#[trigger] states[k]).1.current is Some,
{
    if let Ok(states) = removals(w, paths, selection) {
        if selection is All {
            let all = states_of(w, paths)->Ok_0;
            let wanted = |entry: (Channel, Selected)| entry.1.current is Some;
            let one = all.drop_last();
            let none = one.drop_last();
            reveal(Seq::filter);
            assert(all.len() == 2 && all[0].0 != all[1].0);
            assert(none.len() == 0);
            assert(none.filter(wanted).len() == 0);
            assert(one.filter(wanted) =~= if wanted(all[0]) {
                seq![all[0]]
            } else {
                seq![]
            });
            assert(states == all.filter(wanted));
        }
    }
}

/// The lines that tell of a removal are printed on a calm machine.
proof fn lemma_removals_told_calmly(w: World, states: Seq<(Channel, Selected)>)
    requires
        calm(w.outside),
    ensures
        removals_told(w, states).0 is Ok,
    decreases states.len(),
{
    if states.len() > 0 {
        let line = "removed "@ + states[0].0.name();
        lemma_calm_attempt(w, Deed::Print(line));
        lemma_removals_told_calmly(printed(w, line).1, states.skip(1));
    }
}

/// On a calm machine the channel in use is taken out of use.
proof fn lemma_use_ended_calmly(w: World, home: Seq<u8>, states: Seq<(Channel, Selected)>)
    requires
        absolute(home),
        calm(w.outside),
        active_channel(w, places_below(home)) matches Ok(active) && (active matches Some(channel)
            && is_among(states, channel) ==> exposure(w, places_below(home)) is Ok),
    ensures
        use_ended(w, places_below(home), states).0 is Ok,
        use_ended(w, places_below(home), states).1.outside == w.outside,
{
    let paths = places_below(home);
    let active = active_channel(w, paths)->Ok_0;
    if active is Some && is_among(states, active->0) {
        lemma_places(home);
        assert(paths.active.take(paths.state.len() as int) =~= paths.state);
        lemma_parting(home, paths.active);
        lemma_calm_sight(w, paths.active);
        lemma_calm_sight(w, paths.nvim_link);
        lemma_calm_attempt(w, Deed::RemoveFile(paths.active));
        lemma_done(w, Deed::RemoveFile(paths.active), paths.nvim_link);
        let w1 = w.attempt(Deed::RemoveFile(paths.active)).1;
        lemma_calm_attempt(w1, Deed::SyncDirectory(paths.state));
        lemma_stored(w1, Deed::SyncDirectory(paths.state));
        let w2 = synced(w1, paths.state).1;
        assert(at(w2.nodes, paths.nvim_link) == at(w.nodes, paths.nvim_link));
        lemma_calm_attempt(w2, Deed::RemoveFile(paths.nvim_link));
        let w3 = w2.attempt(Deed::RemoveFile(paths.nvim_link)).1;
        lemma_calm_attempt(w3, Deed::SyncDirectory(paths.local_bin));
    }
}

/// Whether every entry of the directory of releases holds a release and is listed once.
pub open spec fn cleanable(w: World, paths: Places) -> bool {
    let names = (w.outside.order)(w.nodes, paths.installs);
    &&& at(w.nodes, paths.installs) matches Some(node) && node is Directory
    &&& (w.outside.broken)(w.moment, w.nodes, paths.installs) is None
    &&& names.no_duplicates()
    &&& forall|k: int|
        0 <= k < names.len() ==> decoded(#[trigger] names[k]) is Ok && installation_at(
            w,
            paths,
            joined(paths.installs, names[k]),
            None,
        ) is Ok
}

/// On a calm machine directories are removed that have nothing in common.
proof fn lemma_trees_removed_calmly(w: World, trees: Seq<Seq<u8>>)
    requires
        calm(w.outside),
        forall|k: int|
            0 <= k < trees.len() ==> at(w.nodes, #[trigger] trees[k]) is Some && at(
                w.nodes,
                trees[k],
            )->0 is Directory,
        forall|j: int, k: int|
            0 <= j < k < trees.len() ==> !reaches(#[trigger] trees[j], #[trigger] trees[k]),
    ensures
        trees_removed(w, trees).0 is Ok,
        trees_removed(w, trees).1.outside == w.outside,
    decreases trees.len(),
{
    if trees.len() > 0 {
        let remove = Deed::RemoveTree(trees[0]);
        let rest = trees.skip(1);
        assert(at(w.nodes, trees[0]) is Some);
        lemma_calm_attempt(w, remove);
        let w1 = w.attempt(remove).1;
        assert forall|k: int| 0 <= k < rest.len() implies at(w1.nodes, #[trigger] rest[k]) is Some
            && at(w1.nodes, rest[k])->0 is Directory by {
            assert(rest[k] == trees[k + 1]);
            assert(!reaches(trees[0], trees[k + 1]));
            lemma_done(w, remove, rest[k]);
        }
        assert forall|j: int, k: int| 0 <= j < k < rest.len() implies !reaches(
            #[trigger] rest[j],
            #[trigger] rest[k],
        ) by {
            assert(rest[j] == trees[j + 1] && rest[k] == trees[k + 1]);
        }
        lemma_trees_removed_calmly(w1, rest);
    }
}

/// The releases that no channel selects are found, and their directories have nothing in common.
proof fn lemma_unreferenced_found(
    w: World,
    paths: Places,
    states: Seq<(Channel, Selected)>,
    names: Seq<Seq<u8>>,
)
    requires
        calm(w.outside),
        is_place(paths.installs),
        names.no_duplicates(),
        forall|k: int|
            0 <= k < names.len() ==> no_slash(#[trigger] names[k]) && decoded(names[k]) is Ok
                && installation_at(w, paths, joined(paths.installs, names[k]), None) is Ok,
    ensures
        unreferenced(w, paths, states, names) matches Ok(trees) && {
            &&& forall|k: int|
                0 <= k < trees.len() ==> at(w.nodes, #[trigger] trees[k]) is Some && at(
                    w.nodes,
                    trees[k],
                )->0 is Directory
            &&& forall|j: int, k: int|
                0 <= j < k < trees.len() ==> !reaches(#[trigger] trees[j], #[trigger] trees[k])
        },
    decreases names.len(),
{
    if names.len() > 0 {
        let path = joined(paths.installs, names[0]);
        let rest = names.skip(1);
        assert(no_slash(names[0]));
        assert forall|k: int| 0 <= k < rest.len() implies no_slash(#[trigger] rest[k]) && decoded(
            rest[k],
        ) is Ok && installation_at(w, paths, joined(paths.installs, rest[k]), None) is Ok by {
            assert(rest[k] == names[k + 1]);
        }
        lemma_unreferenced_found(w, paths, states, rest);
        let more = unreferenced(w, paths, states, rest)->Ok_0;
        let trees = unreferenced(w, paths, states, names)->Ok_0;
        if !referenced(states, decoded(names[0])->Ok_0) {
            assert(at(w.nodes, path) is Some && at(w.nodes, path)->0 is Directory) by {
                reveal(installation_at);
                lemma_calm_sight(w, path);
            }
            assert forall|k: int| 0 <= k < more.len() implies !reaches(
                path,
                #[trigger] more[k],
            ) by {
                lemma_trees(w, paths, states, rest, k);
                let j = choose|j: int|
                    0 <= j < rest.len() && is_unreferenced(states, #[trigger] rest[j]) && more[k]
                        == joined(paths.installs, rest[j]);
                assert(rest[j] == names[j + 1]);
                assert(names[0] != names[j + 1]);
                assert(path == paths.installs.push(SLASH) + names[0]);
                assert(more[k] == paths.installs.push(SLASH) + rest[j]);
                assert(reaches(more[k], more[k]));
                lemma_distinct_trees(paths.installs, rest[j], names[0], more[k]);
            }
            assert(trees =~= seq![path] + more);
            assert forall|k: int| 0 <= k < trees.len() implies at(w.nodes, #[trigger] trees[k]) is Some
                && at(w.nodes, trees[k])->0 is Directory by {
                if k > 0 {
                    assert(trees[k] == more[k - 1]);
                }
            }
            assert forall|j: int, k: int| 0 <= j < k < trees.len() implies !reaches(
                #[trigger] trees[j],
                #[trigger] trees[k],
            ) by {
                assert(trees[k] == more[k - 1]);
                if j > 0 {
                    assert(trees[j] == more[j - 1]);
                }
            }
        }
    }
}

/// On a calm machine the releases that no channel selects are removed, if every entry beside them
/// holds a release.
pub proof fn unreferenced_releases_are_removed(w: World, home: Seq<u8>)
    requires
        absolute(home),
        calm(w.outside),
        orderly(w.outside, places_below(home)),
        states_of(w, places_below(home)) is Ok,
        cleanable(w, places_below(home)),
    ensures
        installs_cleaned(w, places_below(home)).0 is Ok,
{
    let paths = places_below(home);
    let names = (w.outside.order)(w.nodes, paths.installs);
    let states = states_of(w, paths)->Ok_0;
    lemma_places(home);
    assert(w.listing(paths.installs) == Names::Names(names)) by {
        reveal(World::listing);
        assert((w.outside.fault)(w.moment, w.nodes, Deed::List(paths.installs)) is None);
    }
    lemma_unreferenced_found(w, paths, states, names);
    let trees = unreferenced(w, paths, states, names)->Ok_0;
    lemma_trees_removed_calmly(w, trees);
    lemma_calm_attempt(trees_removed(w, trees).1, Deed::SyncDirectory(paths.installs));
}

/// What a channel selects is the same where neither its links nor any release has changed.
pub proof fn lemma_state_kept(before: World, after: World, home: Seq<u8>, channel: Channel)
    requires
        absolute(home),
        calm(before.outside),
        kept(before, after, places_below(home).link_of(channel, "current"@)),
        kept(before, after, places_below(home).link_of(channel, "previous"@)),
        forall|path: Seq<u8>|
            reaches(places_below(home).installs, path) ==> #[trigger] kept(before, after, path),
        state_of(before, places_below(home), channel) is Ok,
    ensures
        state_of(after, places_below(home), channel) == state_of(
            before,
            places_below(home),
            channel,
        ),
{
    let paths = places_below(home);
    let selected = state_of(before, paths, channel)->Ok_0;
    lemma_state_selects(before, paths, channel);
    if let Some(current) = selected.current {
        lemma_release_parts(home, channel, current.name);
    }
    if let Some(previous) = selected.previous {
        lemma_release_parts(home, channel, previous.name);
    }
    lemma_state_same(before, after, paths, channel);
}

/// Each channel is readable after the links of some of them were removed.
proof fn lemma_states_left(w: World, home: Seq<u8>, states: Seq<(Channel, Selected)>, channel: Channel)
    requires
        absolute(home),
        calm(w.outside),
        orderly(w.outside, places_below(home)),
        selections_removed(w, places_below(home), states).0 is Ok,
        truly_missing(w.nodes, places_below(home), states),
        state_of(w, places_below(home), channel) is Ok,
    ensures
        state_of(selections_removed(w, places_below(home), states).1, places_below(home), channel) is Ok,
{
    let paths = places_below(home);
    let after = selections_removed(w, paths, states).1;
    let current = paths.link_of(channel, "current"@);
    let previous = paths.link_of(channel, "previous"@);
    lemma_names();
    lemma_links_are_links(home);
    lemma_selections_removed(w, home, states);
    if exists|k: int| 0 <= k < states.len() && (#[trigger] states[k]).0 == channel {
        reveal(state_of);
        reveal(pointer_of);
        lemma_calm_sight(after, current);
        lemma_calm_sight(after, previous);
    } else {
        assert forall|k: int| 0 <= k < states.len() implies current != paths.link_of(
            (#[trigger] states[k]).0,
            "current"@,
        ) && current != paths.link_of(states[k].0, "previous"@) && previous != paths.link_of(
            states[k].0,
            "current"@,
        ) && previous != paths.link_of(states[k].0, "previous"@) by {
            lemma_links_differ(home, states[k].0, channel);
        }
        selections_removed_keeps(w, paths, states, current);
        selections_removed_keeps(w, paths, states, previous);
        assert forall|path: Seq<u8>| reaches(paths.installs, path) implies #[trigger] kept(
            w,
            after,
            path,
        ) by {
            selections_removed_keeps(w, paths, states, path);
        }
        lemma_state_kept(w, after, home, channel);
    }
}

/// Each channel is readable after the end of the use of one of them.
proof fn lemma_states_unused(w: World, home: Seq<u8>, states: Seq<(Channel, Selected)>, channel: Channel)
    requires
        absolute(home),
        calm(w.outside),
        orderly(w.outside, places_below(home)),
        state_of(w, places_below(home), channel) is Ok,
    ensures
        state_of(use_ended(w, places_below(home), states).1, places_below(home), channel) is Ok,
{
    let paths = places_below(home);
    let after = deactivated(w, paths).1;
    lemma_names();
    lemma_links_are_links(home);
    lemma_active_spared(home, channel);
    lemma_nvim_spared(home, channel);
    deactivated_keeps(w, paths, paths.link_of(channel, "current"@));
    deactivated_keeps(w, paths, paths.link_of(channel, "previous"@));
    assert forall|path: Seq<u8>| reaches(paths.installs, path) implies #[trigger] kept(
        w,
        after,
        path,
    ) by {
        deactivated_keeps(w, paths, path);
    }
    lemma_state_kept(w, after, home, channel);
}

/// On a calm machine on which the channels can be read, those that are installed are removed, if
/// the executable of a channel in use among them is the managed one and if every entry of the
/// directory of releases holds a release.
pub proof fn installed_channels_are_removed(w: World, home: Seq<u8>, selection: ChannelSelection)
    requires
        absolute(home),
        calm(w.outside),
        orderly(w.outside, places_below(home)),
        states_of(w, places_below(home)) is Ok,
        ({
            let paths = places_below(home);
            let states = removals(w, paths, selection)->Ok_0;
            let unused = use_ended(w, paths, states).1;
            &&& removals(w, paths, selection) is Ok
            &&& active_channel(w, paths) matches Ok(active) && (active matches Some(channel)
                && is_among(states, channel) ==> exposure(w, paths) is Ok)
            &&& cleanable(selections_removed(unused, paths, states).1, paths)
        }),
    ensures
        channels_removed(w, places_below(home), selection).0 is Ok,
{
    let paths = places_below(home);
    let states = removals(w, paths, selection)->Ok_0;
    lemma_names();
    lemma_links_are_links(home);
    lemma_removals(w, paths, selection);
    lemma_removals_distinct(w, paths, selection);
    lemma_use_ended_calmly(w, home, states);
    let w1 = use_ended(w, paths, states).1;
    assert forall|channel: Channel, which: Seq<char>| is_name(which) implies at(
        w1.nodes,
        #[trigger] paths.link_of(channel, which),
    ) == at(w.nodes, paths.link_of(channel, which)) by {
        deactivated_keeps(w, paths, paths.link_of(channel, which));
    }
    assert forall|k: int| 0 <= k < states.len() implies linked(
        w1.nodes,
        paths,
        (#[trigger] states[k]).0,
        states[k].1,
    ) by {
        lemma_state_selects(w, paths, states[k].0);
    }
    assert(truly_missing(w1.nodes, paths, states));
    lemma_selections_removed_calmly(w1, home, states);
    let w2 = selections_removed(w1, paths, states).1;
    lemma_states_unused(w, home, states, Channel::Stable);
    lemma_states_unused(w, home, states, Channel::Nightly);
    lemma_states_left(w1, home, states, Channel::Stable);
    lemma_states_left(w1, home, states, Channel::Nightly);
    unreferenced_releases_are_removed(w2, home);
    installs_cleaned_keeps(w2, home, paths.link_of(Channel::Stable, "current"@));
    lemma_removals_told_calmly(installs_cleaned(w2, paths).1, states);
}

} // verus!
