//! The removal of releases that no channel selects any more.

use vstd::prelude::*;

use crate::channel::Channel;
use crate::encoding::{decode, decoded};
use crate::host::{
    failed, group_walked, looked, ran, told, under_way, Action, Attempt, Deed, Listing, Names,
    Session, Stop, World,
};
use crate::installation::{
    installation_at, installation_deeds, read_all_channel_states, read_installation, states_deeds,
    states_of, ChannelState, Installation, Installed, Selected,
};
use crate::layout::{sync_directory, synced};
use crate::path::{joined, shown, UnixPath};
use crate::paths::{Paths, Places};
use crate::text::same;

verus! {

broadcast use group_walked;

/// Whether an installed release is the one in the directory `name`.
pub open spec fn is_named(installed: Option<Installed>, name: Seq<char>) -> bool {
    installed matches Some(installed) && installed.name == name
}

/// Whether a channel selects the release in the directory `name`.
pub open spec fn refers(selected: Selected, name: Seq<char>) -> bool {
    is_named(selected.current, name) || is_named(selected.previous, name)
}

/// Whether one of the channels selects the release in the directory `name`.
pub open spec fn referenced(states: Seq<(Channel, Selected)>, name: Seq<char>) -> bool {
    exists|k: int| 0 <= k < states.len() && refers((#[trigger] states[k]).1, name)
}

fn has_name(installation: &Option<Installation>, name: &str) -> (yes: bool)
    ensures
        yes == is_named(installation.deep_view(), name@),
{
    match installation {
        Some(installation) => same(installation.directory_name.as_str(), name),
        None => false,
    }
}

/// Whether one of the channels selects the release in the directory `name`.
pub fn is_referenced(states: &Vec<(Channel, ChannelState)>, name: &str) -> (yes: bool)
    ensures
        yes == referenced(states.deep_view(), name@),
{
    let ghost all = states.deep_view();
    let mut at: usize = 0;
    while at < states.len()
        invariant
            all == states.deep_view(),
            at <= states.len(),
            forall|k: int| 0 <= k < at ==> !refers((#[trigger] all[k]).1, name@),
        decreases states.len() - at,
    {
        let state = &states[at].1;
        assert(all[at as int].1 == state.deep_view());
        if has_name(&state.current, name) || has_name(&state.previous, name) {
            return true;
        }
        at = at + 1;
    }
    false
}

/// The directories among the entries `names` that hold releases which no channel selects. Every
/// entry must hold a release.
pub open spec fn unreferenced(
    w: World,
    paths: Places,
    states: Seq<(Channel, Selected)>,
    names: Seq<Seq<u8>>,
) -> Result<Seq<Seq<u8>>, Seq<char>>
    decreases names.len(),
{
    if names.len() == 0 {
        Ok(seq![])
    } else {
        let path = joined(paths.installs, names[0]);
        match decoded(names[0]) {
            Err(_) => Err(
                "non-UTF-8 entry in managed installation directory "@ + shown(paths.installs),
            ),
            Ok(name) => match installation_at(w, paths, path, None) {
                Err(message) => Err(message),
                Ok(_) => match unreferenced(w, paths, states, names.skip(1)) {
                    Err(message) => Err(message),
                    Ok(more) => Ok(
                        if referenced(states, name) {
                            more
                        } else {
                            seq![path] + more
                        },
                    ),
                },
            },
        }
    }
}

/// What is done to find them.
pub open spec fn search_deeds(w: World, paths: Places, names: Seq<Seq<u8>>) -> Seq<Deed>
    decreases names.len(),
{
    if names.len() == 0 {
        seq![]
    } else {
        let path = joined(paths.installs, names[0]);
        match decoded(names[0]) {
            Err(_) => seq![],
            Ok(_) => installation_deeds(w, paths, path, None) + match installation_at(
                w,
                paths,
                path,
                None,
            ) {
                Err(_) => seq![],
                Ok(_) => search_deeds(w, paths, names.skip(1)),
            },
        }
    }
}

fn find_unreferenced(
    session: &mut Session,
    paths: &Paths,
    states: &Vec<(Channel, ChannelState)>,
    names: &Vec<UnixPath>,
) -> (done: Result<Vec<UnixPath>, Stop>)
    ensures
        looked(
            *old(session),
            *final(session),
            told(done),
            search_deeds(old(session).world(), paths@, names.deep_view()),
            unreferenced(
                old(session).world(),
                paths@,
                states.deep_view(),
                names.deep_view(),
            ),
        ),
{
    let mut found: Vec<UnixPath> = Vec::new();
    let ghost w = session.world();
    let ghost all = names.deep_view();
    let ghost selected = states.deep_view();
    let mut at: usize = 0;
    assert(all.skip(0) =~= all);
    assert(found.deep_view() =~= seq![]);
    proof {
        if let Ok(more) = unreferenced(w, paths@, selected, all) {
            assert(found.deep_view() + more =~= more);
        }
    }
    while at < names.len()
        invariant
            at <= names.len(),
            all == names.deep_view(),
            all.len() == names.len(),
            selected == states.deep_view(),
            under_way(
                *old(session),
                *session,
                search_deeds(w, paths@, all),
                search_deeds(w, paths@, all.skip(at as int)),
            ),
            session.world() == w,
            w == old(session).world(),
            session.faithful() ==> match unreferenced(w, paths@, selected, all.skip(at as int)) {
                Ok(more) => unreferenced(w, paths@, selected, all) == Ok::<
                    Seq<Seq<u8>>,
                    Seq<char>,
                >(found.deep_view() + more),
                Err(message) => unreferenced(w, paths@, selected, all) == Err::<
                    Seq<Seq<u8>>,
                    Seq<char>,
                >(message),
            },
        decreases names.len() - at,
    {
        let entry = &names[at];
        let ghost rest = all.skip(at as int);
        assert(rest[0] == entry@);
        assert(rest.skip(1) =~= all.skip(at + 1));
        let name = match decode(&entry.bytes) {
            Ok(name) => name,
            Err(_) => return Err(
                failed(
                    "non-UTF-8 entry in managed installation directory ".to_owned().concat(
                        paths.installs.display().as_str(),
                    ),
                ),
            ),
        };
        let path = paths.installs.join_path(entry);
        read_installation(session, paths, &path, None)?;
        let ghost before = found.deep_view();
        let ghost bytes = path@;
        if !is_referenced(states, name.as_str()) {
            found.push(path);
            assert(found.deep_view() =~= before.push(bytes));
            proof {
                if let Ok(more) = unreferenced(w, paths@, selected, all.skip(at + 1)) {
                    assert(before + (seq![bytes] + more) =~= before.push(bytes) + more);
                }
            }
        }
        at = at + 1;
    }
    assert(all.skip(at as int) =~= seq![]);
    assert(found.deep_view() + Seq::<Seq<u8>>::empty() =~= found.deep_view());
    Ok(found)
}

/// Removes directories with what is in them, up to the first that cannot be removed.
pub open spec fn trees_removed(w: World, trees: Seq<Seq<u8>>) -> (Result<(), Seq<char>>, World)
    decreases trees.len(),
{
    if trees.len() == 0 {
        (Ok(()), w)
    } else {
        let (removed, after) = w.attempt(Deed::RemoveTree(trees[0]));
        match removed {
            Err(cause) => (
                Err(
                    "failed to remove unreferenced managed installation "@ + shown(trees[0])
                        + ": "@ + cause,
                ),
                after,
            ),
            Ok(()) => trees_removed(after, trees.skip(1)),
        }
    }
}

/// What is done for that.
pub open spec fn clearing_deeds(w: World, trees: Seq<Seq<u8>>) -> Seq<Deed>
    decreases trees.len(),
{
    if trees.len() == 0 {
        seq![]
    } else {
        let (removed, after) = w.attempt(Deed::RemoveTree(trees[0]));
        seq![Deed::RemoveTree(trees[0])] + match removed {
            Err(_) => seq![],
            Ok(()) => clearing_deeds(after, trees.skip(1)),
        }
    }
}

fn remove_trees(session: &mut Session, trees: &Vec<UnixPath>) -> (done: Result<(), Stop>)
    ensures
        ran(
            *old(session),
            *final(session),
            told(done),
            clearing_deeds(old(session).world(), trees.deep_view()),
            trees_removed(old(session).world(), trees.deep_view()),
        ),
{
    let ghost w = session.world();
    let ghost all = trees.deep_view();
    let mut at: usize = 0;
    assert(all.skip(0) =~= all);
    while at < trees.len()
        invariant
            at <= trees.len(),
            all == trees.deep_view(),
            all.len() == trees.len(),
            under_way(
                *old(session),
                *session,
                clearing_deeds(w, all),
                if session.faithful() {
                    clearing_deeds(session.world(), all.skip(at as int))
                } else {
                    seq![]
                },
            ),
            w == old(session).world(),
            session.faithful() ==> trees_removed(session.world(), all.skip(at as int))
                == trees_removed(w, all),
        decreases trees.len() - at,
    {
        let tree = &trees[at];
        let ghost rest = all.skip(at as int);
        assert(rest[0] == tree@);
        assert(rest.skip(1) =~= all.skip(at + 1));
        match session.attempt(Action::RemoveTree(tree.copy()))? {
            Attempt::Done(_) => {},
            Attempt::Failed(cause) => return Err(
                failed(
                    "failed to remove unreferenced managed installation ".to_owned().concat(
                        tree.display().as_str(),
                    ).concat(": ").concat(cause.as_str()),
                ),
            ),
        }
        at = at + 1;
    }
    assert(all.skip(at as int) =~= seq![]);
    Ok(())
}

/// Removes the releases among the entries `names` that no channel selects.
pub open spec fn entries_cleaned(
    w: World,
    paths: Places,
    states: Seq<(Channel, Selected)>,
    names: Seq<Seq<u8>>,
) -> (Result<(), Seq<char>>, World) {
    match unreferenced(w, paths, states, names) {
        Err(message) => (Err(message), w),
        Ok(trees) => {
            let (removed, w1) = trees_removed(w, trees);
            match removed {
                Err(message) => (Err(message), w1),
                Ok(()) => synced(w1, paths.installs),
            }
        },
    }
}

/// Removes the releases that no channel selects. Nothing is removed unless every entry beside
/// them is a release.
pub open spec fn installs_cleaned(w: World, paths: Places) -> (Result<(), Seq<char>>, World) {
    match states_of(w, paths) {
        Err(message) => (Err(message), w),
        Ok(states) => match w.listing(paths.installs) {
            Names::Unreadable(cause) => (
                Err(
                    "failed to inspect installation directory "@ + shown(paths.installs) + ": "@
                        + cause,
                ),
                w,
            ),
            Names::Broken(cause) => (
                Err(
                    "failed to read an installation entry in "@ + shown(paths.installs) + ": "@
                        + cause,
                ),
                w,
            ),
            Names::Names(names) => entries_cleaned(w, paths, states, names),
        },
    }
}

/// What is done to remove the releases among the entries `names` that no channel selects.
pub open spec fn entries_deeds(
    w: World,
    paths: Places,
    states: Seq<(Channel, Selected)>,
    names: Seq<Seq<u8>>,
) -> Seq<Deed> {
    search_deeds(w, paths, names) + match unreferenced(w, paths, states, names) {
        Err(_) => seq![],
        Ok(trees) => clearing_deeds(w, trees) + match trees_removed(w, trees).0 {
            Err(_) => seq![],
            Ok(()) => seq![Deed::SyncDirectory(paths.installs)],
        },
    }
}

/// What is done to remove the releases that no channel selects.
#[verifier::opaque]
pub open spec fn cleanup_deeds(w: World, paths: Places) -> Seq<Deed> {
    states_deeds(w, paths) + match states_of(w, paths) {
        Err(_) => seq![],
        Ok(states) => seq![Deed::List(paths.installs)] + match w.listing(paths.installs) {
            Names::Names(names) => entries_deeds(w, paths, states, names),
            _ => seq![],
        },
    }
}

/// Removes the releases that no channel selects.
pub fn cleanup_unreferenced_installs(session: &mut Session, paths: &Paths) -> (done: Result<
    (),
    Stop,
>)
    ensures
        ran(
            *old(session),
            *final(session),
            told(done),
            cleanup_deeds(old(session).world(), paths@),
            installs_cleaned(old(session).world(), paths@),
        ),
{
    proof {
        reveal(cleanup_deeds);
    }
    let states = read_all_channel_states(session, paths)?;
    let names = match session.list(&paths.installs)? {
        Listing::Names(names) => names,
        Listing::Unreadable(cause) => return Err(
            failed(
                "failed to inspect installation directory ".to_owned().concat(
                    paths.installs.display().as_str(),
                ).concat(": ").concat(cause.as_str()),
            ),
        ),
        Listing::Broken(cause) => return Err(
            failed(
                "failed to read an installation entry in ".to_owned().concat(
                    paths.installs.display().as_str(),
                ).concat(": ").concat(cause.as_str()),
            ),
        ),
    };
    let trees = find_unreferenced(session, paths, &states, &names)?;
    remove_trees(session, &trees)?;
    sync_directory(session, &paths.installs)
}

} // verus!
