//! What the removal of releases that no channel selects promises.

use vstd::prelude::*;
use vstd::utf8::*;

use crate::channel::Channel;
use crate::cleanup::{
    entries_cleaned, installs_cleaned, referenced, refers, trees_removed, unreferenced,
};
use crate::disk::{at, kept, lemma_pointer_selects, lemma_stored, no_slash, orderly};
use crate::encoding::decoded;
use crate::frames::synced_keeps;
use crate::host::{reaches, Deed, Names, World};
use crate::install_frames::trees_removed_keeps;
use crate::installation::{state_of, states_of, Installed, Selected};
use crate::locate::{
    ascii, is_place, lemma_ascii, lemma_distinct_trees, lemma_draft, lemma_places,
    lemma_release_name,
};
use crate::path::{absolute, joined, SLASH};
use crate::paths::{places_below, within, Places};
use crate::transaction::names_release_of;

verus! {

/// Whether an entry of the directory of releases holds one that no channel selects.
pub open spec fn is_unreferenced(states: Seq<(Channel, Selected)>, name: Seq<u8>) -> bool {
    decoded(name) matches Ok(text) && !referenced(states, text)
}

/// What is removed as unreferenced comes from entries whose releases no channel selects.
pub proof fn lemma_trees(
    w: World,
    paths: Places,
    states: Seq<(Channel, Selected)>,
    names: Seq<Seq<u8>>,
    k: int,
)
    requires
        unreferenced(w, paths, states, names) is Ok,
        0 <= k < unreferenced(w, paths, states, names)->Ok_0.len(),
    ensures
        exists|j: int|
            0 <= j < names.len() && is_unreferenced(states, #[trigger] names[j]) && unreferenced(
                w,
                paths,
                states,
                names,
            )->Ok_0[k] == joined(paths.installs, names[j]),
    decreases names.len(),
{
    let trees = unreferenced(w, paths, states, names)->Ok_0;
    let rest = names.skip(1);
    let more = unreferenced(w, paths, states, rest)->Ok_0;
    let text = decoded(names[0])->Ok_0;
    if !referenced(states, text) && k == 0 {
        assert(is_unreferenced(states, names[0]));
    } else {
        let at_more = if referenced(states, text) {
            k
        } else {
            k - 1
        };
        lemma_trees(w, paths, states, rest, at_more);
        let j = choose|j: int|
            0 <= j < rest.len() && is_unreferenced(states, #[trigger] rest[j]) && more[at_more]
                == joined(paths.installs, rest[j]);
        assert(names[j + 1] == rest[j]);
        assert(is_unreferenced(states, names[j + 1]));
    }
}

/// Entries whose releases no channel selects are removed.
proof fn lemma_entries(
    w: World,
    paths: Places,
    states: Seq<(Channel, Selected)>,
    names: Seq<Seq<u8>>,
    j: int,
)
    requires
        unreferenced(w, paths, states, names) is Ok,
        0 <= j < names.len(),
    ensures
        decoded(names[j]) is Ok,
        is_unreferenced(states, names[j]) ==> unreferenced(w, paths, states, names)->Ok_0.contains(
            joined(paths.installs, names[j]),
        ),
    decreases names.len(),
{
    let trees = unreferenced(w, paths, states, names)->Ok_0;
    let rest = names.skip(1);
    let more = unreferenced(w, paths, states, rest)->Ok_0;
    let path = joined(paths.installs, names[0]);
    if j > 0 {
        lemma_entries(w, paths, states, rest, j - 1);
        assert(rest[j - 1] == names[j]);
        if is_unreferenced(states, names[j]) {
            let wanted = joined(paths.installs, names[j]);
            let i = choose|i: int| 0 <= i < more.len() && more[i] == wanted;
            if referenced(states, decoded(names[0])->Ok_0) {
                assert(trees[i] == wanted);
            } else {
                assert(trees[i + 1] == wanted);
            }
        }
    } else if is_unreferenced(states, names[0]) {
        assert(trees[0] == path);
    }
}

/// Directories that were removed are gone, and nothing has come instead.
proof fn lemma_trees_gone(w: World, trees: Seq<Seq<u8>>, path: Seq<u8>)
    requires
        trees_removed(w, trees).0 is Ok,
    ensures
        at(trees_removed(w, trees).1.nodes, path) is Some ==> at(
            trees_removed(w, trees).1.nodes,
            path,
        ) == at(w.nodes, path),
        trees.contains(path) ==> at(trees_removed(w, trees).1.nodes, path) is None,
    decreases trees.len(),
{
    if trees.len() > 0 {
        let w1 = w.attempt(Deed::RemoveTree(trees[0])).1;
        let rest = trees.skip(1);
        assert(at(w1.nodes, path) is Some ==> at(w1.nodes, path) == at(w.nodes, path)) by {
            reveal(World::attempt);
        }
        assert(trees[0] == path ==> at(w1.nodes, path) is None) by {
            reveal(World::attempt);
        }
        lemma_trees_gone(w1, rest, path);
        if trees.contains(path) && trees[0] != path {
            let i = choose|i: int| 0 <= i < trees.len() && trees[i] == path;
            assert(rest[i - 1] == path);
        }
    }
}

proof fn lemma_entries_spared(
    w: World,
    paths: Places,
    states: Seq<(Channel, Selected)>,
    names: Seq<Seq<u8>>,
    own: Seq<u8>,
    path: Seq<u8>,
)
    requires
        orderly(w.outside, paths),
        is_place(paths.installs),
        forall|k: int| 0 <= k < names.len() ==> no_slash(#[trigger] names[k]),
        no_slash(own),
        decoded(own) matches Ok(text) && referenced(states, text),
        reaches(paths.installs.push(SLASH) + own, path),
    ensures
        kept(w, entries_cleaned(w, paths, states, names).1, path),
{
    if let Ok(trees) = unreferenced(w, paths, states, names) {
        assert forall|k: int| 0 <= k < trees.len() implies !reaches(#[trigger] trees[k], path) by {
            lemma_trees(w, paths, states, names, k);
            let j = choose|j: int|
                0 <= j < names.len() && is_unreferenced(states, #[trigger] names[j]) && trees[k]
                    == joined(paths.installs, names[j]);
            assert(no_slash(names[j]));
            assert(trees[k] == paths.installs.push(SLASH) + names[j]);
            lemma_distinct_trees(paths.installs, own, names[j], path);
        }
        trees_removed_keeps(w, paths, trees, path);
        synced_keeps(trees_removed(w, trees).1, paths, paths.installs, path);
    }
}

/// A release that a channel selects is in the directory with its name.
pub proof fn lemma_selected_path(w: World, paths: Places, channel: Channel, installed: Installed)
    requires
        state_of(w, paths, channel) matches Ok(selected) && (selected.current == Some(installed)
            || selected.previous == Some(installed)),
    ensures
        names_release_of(installed.name, channel),
        installed.path == within(paths.installs, installed.name),
{
    reveal(state_of);
    lemma_pointer_selects(w, paths, channel, "current"@);
    lemma_pointer_selects(w, paths, channel, "previous"@);
}

/// The directory with the name of a release is in the directory of releases.
proof fn lemma_release_directory(home: Seq<u8>, channel: Channel, name: Seq<char>)
    requires
        absolute(home),
        names_release_of(name, channel),
    ensures
        no_slash(ascii(name)),
        decoded(ascii(name)) == Ok::<Seq<char>, Seq<char>>(name),
        within(places_below(home).installs, name) == places_below(home).installs.push(SLASH)
            + ascii(name),
{
    lemma_places(home);
    lemma_release_name(name, channel);
    lemma_ascii(name);
    lemma_draft(places_below(home).installs, name);
    let own = ascii(name);
    assert forall|k: int| 0 <= k < own.len() implies #[trigger] own[k] != SLASH by {
        assert(own[k] == name[k] as u8);
        assert(name[k] != '/');
    }
}

/// What one channel selects is among what all of them select.
proof fn lemma_selected_referenced(w: World, paths: Places, channel: Channel, installed: Installed)
    requires
        state_of(w, paths, channel) matches Ok(selected) && (selected.current == Some(installed)
            || selected.previous == Some(installed)),
    ensures
        states_of(w, paths) matches Ok(states) ==> referenced(states, installed.name),
{
    if let Ok(states) = states_of(w, paths) {
        let k: int = if channel == Channel::Stable {
            0
        } else {
            1
        };
        assert(refers(states[k].1, installed.name));
    }
}

/// A release that a channel selects is not removed as unreferenced: whether the removal succeeds or
/// not, all that is in its directory stays as it is.
pub proof fn cleanup_spares_selected(
    w: World,
    home: Seq<u8>,
    channel: Channel,
    installed: Installed,
    path: Seq<u8>,
)
    requires
        absolute(home),
        orderly(w.outside, places_below(home)),
        state_of(w, places_below(home), channel) matches Ok(selected) && (selected.current == Some(
            installed,
        ) || selected.previous == Some(installed)),
        reaches(installed.path, path),
    ensures
        kept(w, installs_cleaned(w, places_below(home)).1, path),
{
    let paths = places_below(home);
    lemma_places(home);
    lemma_selected_path(w, paths, channel, installed);
    lemma_release_directory(home, channel, installed.name);
    lemma_selected_referenced(w, paths, channel, installed);
    if let Ok(states) = states_of(w, paths) {
        if let Names::Names(names) = w.listing(paths.installs) {
            assert forall|k: int| 0 <= k < names.len() implies no_slash(#[trigger] names[k]) by {
                reveal(World::listing);
            }
            lemma_entries_spared(w, paths, states, names, ascii(installed.name), path);
        }
    }
}

/// Whether the directory of releases lists everything that is in it.
pub open spec fn lists_all(w: World, paths: Places) -> bool {
    forall|name: Seq<u8>|
        no_slash(name) && name.len() > 0 && #[trigger] at(
            w.nodes,
            joined(paths.installs, name),
        ) is Some ==> (w.outside.order)(w.nodes, paths.installs).contains(name)
}

/// After a removal of unreferenced releases has succeeded, every entry of the directory of releases
/// is a release that a channel selects.
pub proof fn cleanup_leaves_only_selected(w: World, home: Seq<u8>, name: Seq<u8>)
    requires
        absolute(home),
        installs_cleaned(w, places_below(home)).0 is Ok,
        lists_all(w, places_below(home)),
        no_slash(name),
        name.len() > 0,
        at(
            installs_cleaned(w, places_below(home)).1.nodes,
            joined(places_below(home).installs, name),
        ) is Some,
    ensures
        states_of(w, places_below(home)) matches Ok(states) && decoded(name) matches Ok(text)
            && referenced(states, text),
{
    let paths = places_below(home);
    let path = joined(paths.installs, name);
    reveal(World::listing);
    let states = states_of(w, paths)->Ok_0;
    let names = (w.outside.order)(w.nodes, paths.installs);
    let trees = unreferenced(w, paths, states, names)->Ok_0;
    let w1 = trees_removed(w, trees).1;
    lemma_stored(w1, Deed::SyncDirectory(paths.installs));
    lemma_trees_gone(w, trees, path);
    let j = choose|j: int| 0 <= j < names.len() && names[j] == name;
    lemma_entries(w, paths, states, names, j);
}

} // verus!
