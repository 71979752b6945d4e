//! What the first command in a home without state promises on a machine on which nothing fails.

use vstd::prelude::*;
use vstd::utf8::*;

use crate::activation::destination;
use crate::calm::{calm, lemma_calm_attempt, lemma_calm_sight, lemma_calm_target, tidy};
use crate::changes::{lemma_byte, lemma_channel_places};
use crate::channel::{channel_found_by_name, Channel};
use crate::cli::{command_line, Cli};
use crate::commands::{nothing_selected, platform};
use crate::disk::{at, kept, left_by_program, no_slash, orderly};
use crate::frames::{above_nothing, lemma_reaches_on, lemma_staging, lock_taken_keeps};
use crate::host::{reaches, with_directories, Deed, Names, Node, Outside, World};
use crate::install::missing_installed;
use crate::install_frames::missing_installed_keeps;
use crate::installation::{pointer_of, state_of, Selected};
use crate::laws_command::nothing_pending;
use crate::laws_installed::{
    installable, lemma_offered, lemma_staging_name, offered_release_is_installed, provided,
};
use crate::laws_locked::{
    grown, lemma_lock_spared, lemma_lock_taken_calmly, missing_layout_is_made,
    operation_succeeds_with_lock, reachable,
};
use crate::laws_removed::lemma_state_kept;
use crate::laws_success::vacant;
use crate::laws_use::in_use;
use crate::laws_used::{exposable, first_use_succeeds, only_release};
use crate::layout::{layout_ensured, lock_taken, state_root_prepared};
use crate::locate::{
    below, draft_name, is_name, lemma_apart, lemma_ascii, lemma_draft, lemma_draft_name,
    lemma_names, lemma_places, root_of,
};
use crate::path::{absolute, joined, SLASH};
use crate::paths::{layout, places_below, within, Places};
use crate::pointers::transaction_draft;
use crate::programs::{
    offer_resolved, programs_present, required_programs, version_check, Offer, Setting,
};
use crate::release::is_release_id;
use crate::run::{beginning, channel_used, locked, operated, program_run, Host, Operation};
use crate::separation::{
    lemma_home_bytes, lemma_in_state, lemma_install_place, lemma_link_place, lemma_state_bytes,
    spared,
};
use crate::staging::{staging_created, staging_name};

verus! {

/// Whether nothing fails on a machine: it is calm and orderly, its clock is set, directories list
/// what is in them and nothing twice, and programs that are asked for their versions leave the disk
/// as it is.
pub open spec fn dependable(outside: Outside, paths: Places) -> bool {
    &&& calm(outside)
    &&& orderly(outside, paths)
    &&& forall|moment: nat| (#[trigger] (outside.clock)(moment)) is Ok
    &&& forall|moment: nat, nodes: Map<Seq<u8>, Node>, path: Seq<u8>|
        (#[trigger] (outside.broken)(moment, nodes, path)) is None
    &&& forall|nodes: Map<Seq<u8>, Node>, directory: Seq<u8>|
        (#[trigger] (outside.order)(nodes, directory)).no_duplicates()
    &&& forall|nodes: Map<Seq<u8>, Node>, directory: Seq<u8>, k: int|
        0 <= k < (outside.order)(nodes, directory).len() ==> at(
            nodes,
            joined(directory, #[trigger] (outside.order)(nodes, directory)[k]),
        ) is Some
    &&& forall|moment: nat, nodes: Map<Seq<u8>, Node>, program: Seq<char>| #[trigger]
        left_by_program(outside, moment, nodes, version_check(program)) == nodes
}

/// Whether a home is without state, and nothing prevents that the state is laid out there and that
/// the executable is exposed.
pub open spec fn fresh(w: World, paths: Places) -> bool {
    &&& vacant(w.nodes, paths.state)
    &&& w.permits(Deed::MakePrivateDirectories(paths.state))
    &&& exposable(w, paths)
}

/// The world in which the first installation begins: the programs have been looked for, and the
/// state is laid out and locked.
pub open spec fn laid_out(w: World, paths: Places, process: u32) -> World {
    let w1 = programs_present(w, required_programs()).1;
    let w2 = state_root_prepared(w1, paths).1;
    let w3 = lock_taken(w2, paths, process).1;
    layout_ensured(w3, paths).1
}

/// Whether the machine provides a release of a channel: the channel offers it, and the programs
/// download, check and unpack it.
pub open spec fn provides(
    w: World,
    paths: Places,
    setting: Setting,
    channel: Channel,
    offer: Offer,
    root: Seq<u8>,
    version: Seq<char>,
) -> bool {
    let (created, w1) = staging_created(w, paths, channel, setting.process);
    let (resolved, w2) = offer_resolved(w1, setting, channel, created->Ok_0);
    &&& resolved == Ok::<Offer, Seq<char>>(offer)
    &&& provided(w2, setting, offer, created->Ok_0, root, version)
}

/// Whether directories have come above the state or in it, and nothing else but the lock has
/// changed.
pub open spec fn founded(
    before: Map<Seq<u8>, Node>,
    after: Map<Seq<u8>, Node>,
    paths: Places,
) -> bool {
    forall|path: Seq<u8>|
        path != paths.lock ==> #[trigger] at(after, path) == at(before, path) || {
            &&& at(before, path) is None
            &&& at(after, path)->0 is Directory
            &&& !above_nothing(paths, path)
        }
}

/// Programs that are asked for their versions leave the disk as it is.
pub proof fn lemma_programs_leave(w: World, paths: Places, programs: Seq<Seq<char>>)
    requires
        dependable(w.outside, paths),
    ensures
        programs_present(w, programs).1.nodes == w.nodes,
        programs_present(w, programs).1.outside == w.outside,
    decreases programs.len(),
{
    if programs.len() > 0 {
        let check = version_check(programs[0]);
        let after = w.run(check).1;
        assert(after.nodes == w.nodes && after.outside == w.outside) by {
            reveal(World::run);
            assert(left_by_program(w.outside, w.moment, w.nodes, check) == w.nodes);
        }
        lemma_programs_leave(after, paths, programs.skip(1));
    }
}

/// Of two paths above a third, one is above the other.
proof fn lemma_comparable(one: Seq<u8>, other: Seq<u8>, path: Seq<u8>)
    requires
        reaches(one, path),
        reaches(other, path),
    ensures
        reaches(one, other) || reaches(other, one),
{
    if one != path && other != path {
        if one.len() < other.len() {
            assert(other.take(one.len() as int) =~= one) by {
                assert(path.take(other.len() as int).take(one.len() as int) =~= path.take(
                    one.len() as int,
                ));
            }
            assert(other[one.len() as int] == path[one.len() as int]);
        } else if other.len() < one.len() {
            assert(one.take(other.len() as int) =~= other) by {
                assert(path.take(one.len() as int).take(other.len() as int) =~= path.take(
                    other.len() as int,
                ));
            }
            assert(one[other.len() as int] == path[other.len() as int]);
        }
    }
}

/// The directories of the state are in the state directory, and neither they nor what is above them
/// is the lock.
proof fn lemma_layout(home: Seq<u8>)
    requires
        absolute(home),
    ensures
        ({
            let paths = places_below(home);
            &&& forall|k: int|
                0 <= k < layout(paths).len() ==> {
                    let directory = #[trigger] layout(paths)[k];
                    &&& reaches(paths.state, directory)
                    &&& directory != paths.state
                    &&& !reaches(paths.lock, directory)
                }
            &&& reaches(paths.state, paths.lock)
            &&& paths.lock != paths.state
            &&& above_nothing(paths, paths.lock)
        }),
{
    let paths = places_below(home);
    let n = paths.state.len() as int + 1;
    lemma_places(home);
    lemma_in_state(home, Channel::Stable);
    lemma_in_state(home, Channel::Nightly);
    lemma_state_bytes(home, Channel::Stable);
    lemma_state_bytes(home, Channel::Nightly);
    lemma_lock_spared(home, Channel::Stable);
    assert(paths.lock.take(paths.state.len() as int) =~= paths.state);
}

/// The state directory is made where there is none.
proof fn lemma_root_made(w: World, home: Seq<u8>)
    requires
        absolute(home),
        calm(w.outside),
        fresh(w, places_below(home)),
    ensures
        ({
            let paths = places_below(home);
            let (prepared, after) = state_root_prepared(w, paths);
            &&& prepared is Ok
            &&& after.outside == w.outside
            &&& grown(w.nodes, after.nodes, seq![paths.state])
        }),
{
    let paths = places_below(home);
    let make = Deed::MakePrivateDirectories(paths.state);
    let after = state_root_prepared(w, paths).1;
    assert(reaches(paths.state, paths.state));
    lemma_calm_sight(w, paths.state);
    lemma_calm_attempt(w, make);
    assert(after.nodes == with_directories(w.nodes, paths.state, 0o700 & !w.outside.umask)) by {
        reveal(World::attempt);
    }
    assert forall|path: Seq<u8>| #[trigger]
        at(after.nodes, path) == at(w.nodes, path) || {
            &&& at(w.nodes, path) is None
            &&& at(after.nodes, path)->0 is Directory
            &&& exists|k: int|
                0 <= k < seq![paths.state].len() && reaches(path, #[trigger] seq![paths.state][k])
        } by {
        if at(after.nodes, path) != at(w.nodes, path) {
            assert(reaches(path, seq![paths.state][0]));
        }
    }
}

/// What is above a directory that can be made is a directory or a link.
proof fn lemma_passable(w: World, place: Seq<u8>, other: Seq<u8>)
    requires
        w.permits(Deed::MakePrivateDirectories(place)),
        w.nodes.contains_key(other),
        other.len() > 0,
        reaches(other, place),
    ensures
        w.nodes[other] is Directory || w.nodes[other] is Link,
{
    let make = Deed::MakePrivateDirectories(place);
    assert(make->MakePrivateDirectories_0 == place);
    assert(reaches(other, make->MakePrivateDirectories_0));
}

/// Above what is in the state directory there are directories and links alone once it is made.
proof fn lemma_above(w: World, after: World, home: Seq<u8>, place: Seq<u8>, other: Seq<u8>)
    requires
        fresh(w, places_below(home)),
        reaches(places_below(home).state, place),
        reaches(other, place),
        other.len() > 0,
        after.nodes.contains_key(other),
        at(after.nodes, other) == at(w.nodes, other) || at(after.nodes, other)->0 is Directory,
    ensures
        after.nodes[other] is Directory || after.nodes[other] is Link,
{
    let paths = places_below(home);
    if at(after.nodes, other) == at(w.nodes, other) {
        assert(w.nodes.contains_key(other));
        lemma_comparable(other, paths.state, place);
        assert(!reaches(paths.state, other));
        assert(reaches(other, paths.state));
        lemma_passable(w, paths.state, other);
    }
}

/// Once the state directory is made and locked, nothing prevents that the directories of the state
/// are made.
proof fn lemma_layout_reachable(w: World, after: World, home: Seq<u8>)
    requires
        absolute(home),
        fresh(w, places_below(home)),
        forall|path: Seq<u8>|
            path != places_below(home).lock ==> #[trigger] at(after.nodes, path) == at(
                w.nodes,
                path,
            ) || {
                &&& at(w.nodes, path) is None
                &&& at(after.nodes, path)->0 is Directory
                &&& reaches(path, places_below(home).state)
            },
    ensures
        reachable(after, layout(places_below(home))),
        forall|k: int|
            0 <= k < layout(places_below(home)).len() ==> at(
                after.nodes,
                #[trigger] layout(places_below(home))[k],
            ) is None,
{
    let paths = places_below(home);
    let all = layout(paths);
    lemma_layout(home);
    assert forall|k: int| 0 <= k < all.len() implies at(after.nodes, #[trigger] all[k]) is None by {
        assert(!reaches(all[k], paths.state));
        assert(paths.lock != all[k]);
        assert(at(after.nodes, all[k]) == at(w.nodes, all[k]));
        if w.nodes.contains_key(all[k]) {
            assert(!reaches(paths.state, all[k]));
        }
    }
    assert forall|k: int| 0 <= k < all.len() implies after.permits(
        Deed::MakePrivateDirectories(#[trigger] all[k]),
    ) by {
        assert forall|other: Seq<u8>|
            after.nodes.contains_key(other) && other.len() > 0 && #[trigger] reaches(
                other,
                all[k],
            ) implies after.nodes[other] is Directory || after.nodes[other] is Link by {
            lemma_above(w, after, home, all[k], other);
        }
    }
}

/// In a home without state the state is laid out and locked if nothing fails.
#[verifier::rlimit(40)]
#[verifier::spinoff_prover]
proof fn lemma_laid_out(w: World, home: Seq<u8>, process: u32)
    requires
        absolute(home),
        dependable(w.outside, places_below(home)),
        fresh(w, places_below(home)),
    ensures
        ({
            let paths = places_below(home);
            let w1 = programs_present(w, required_programs()).1;
            let w2 = state_root_prepared(w1, paths).1;
            let w3 = lock_taken(w2, paths, process).1;
            let w4 = laid_out(w, paths, process);
            &&& state_root_prepared(w1, paths).0 is Ok
            &&& w2.outside == w.outside
            &&& at(w2.nodes, paths.lock) is None
            &&& nothing_pending(w2.nodes, paths)
            &&& lock_taken(w2, paths, process).0 is Ok
            &&& layout_ensured(w3, paths).0 is Ok
            &&& w4.outside == w.outside
            &&& founded(w.nodes, w4.nodes, paths)
            &&& at(w4.nodes, paths.staging) matches Some(node) && node is Directory
        }),
{
    let paths = places_below(home);
    let all = layout(paths);
    let n = paths.state.len() as int + 1;
    let w1 = programs_present(w, required_programs()).1;
    lemma_layout(home);
    lemma_programs_leave(w, paths, required_programs());
    assert(fresh(w1, paths));
    lemma_root_made(w1, home);
    let w2 = state_root_prepared(w1, paths).1;
    assert forall|path: Seq<u8>| #[trigger] at(w2.nodes, path) == at(w.nodes, path) || {
        &&& at(w.nodes, path) is None
        &&& at(w2.nodes, path)->0 is Directory
        &&& reaches(path, paths.state)
    } by {
        if at(w2.nodes, path) != at(w1.nodes, path) {
            let k = choose|k: int|
                0 <= k < seq![paths.state].len() && reaches(path, #[trigger] seq![paths.state][k]);
            assert(seq![paths.state][k] == paths.state);
        }
    }
    lemma_bare(w, w2, home, paths.lock);
    lemma_state_bytes(home, Channel::Stable);
    lemma_in_state(home, Channel::Stable);
    lemma_bare(w, w2, home, paths.transaction);
    lemma_bare(w, w2, home, transaction_draft(paths));
    lemma_lock_taken_calmly(w2, paths, process);
    let w3 = lock_taken(w2, paths, process).1;
    assert forall|path: Seq<u8>| path != paths.lock implies #[trigger] at(w3.nodes, path) == at(
        w.nodes,
        path,
    ) || {
        &&& at(w.nodes, path) is None
        &&& at(w3.nodes, path)->0 is Directory
        &&& reaches(path, paths.state)
    } by {
        lock_taken_keeps(w2, paths, process, path);
    }
    lemma_layout_reachable(w, w3, home);
    missing_layout_is_made(w3, home);
    let w4 = layout_ensured(w3, paths).1;
    assert forall|path: Seq<u8>| path != paths.lock implies #[trigger] at(w4.nodes, path) == at(
        w.nodes,
        path,
    ) || {
        &&& at(w.nodes, path) is None
        &&& at(w4.nodes, path)->0 is Directory
        &&& !above_nothing(paths, path)
    } by {
        if at(w3.nodes, path) != at(w.nodes, path) {
            assert(reaches(paths.state, all[0]));
            lemma_reaches_on(path, paths.state, all[0]);
        }
        if at(w4.nodes, path) != at(w3.nodes, path) {
            let k = choose|k: int| 0 <= k < all.len() && reaches(path, #[trigger] all[k]);
        }
    }
    assert(at(w4.nodes, all[2]) is Some);
    assert(at(w3.nodes, all[2]) is None);
    assert(at(w4.nodes, all[2]) != at(w3.nodes, all[2]));
}

/// What is in the state directory is not there as long as only the state directory is made.
proof fn lemma_bare(w: World, after: World, home: Seq<u8>, path: Seq<u8>)
    requires
        fresh(w, places_below(home)),
        forall|path: Seq<u8>| #[trigger] at(after.nodes, path) == at(w.nodes, path) || {
            &&& at(w.nodes, path) is None
            &&& at(after.nodes, path)->0 is Directory
            &&& reaches(path, places_below(home).state)
        },
        reaches(places_below(home).state, path),
        path != places_below(home).state,
    ensures
        at(after.nodes, path) is None,
{
    assert(at(after.nodes, path) == at(w.nodes, path));
    if w.nodes.contains_key(path) {
        assert(!reaches(places_below(home).state, path));
    }
}

/// Nothing is in the state directory at or below a place that is not above the directories of the
/// state nor above the lock.
proof fn lemma_place_vacant(w: World, after: World, home: Seq<u8>, place: Seq<u8>)
    requires
        absolute(home),
        vacant(w.nodes, places_below(home).state),
        founded(w.nodes, after.nodes, places_below(home)),
        reaches(places_below(home).state, place),
        above_nothing(places_below(home), place),
        !reaches(place, places_below(home).lock),
    ensures
        vacant(after.nodes, place),
{
    let paths = places_below(home);
    let all = layout(paths);
    assert forall|inner: Seq<u8>| #[trigger] after.nodes.contains_key(inner) implies !reaches(
        place,
        inner,
    ) by {
        if reaches(place, inner) {
            lemma_reaches_on(paths.state, place, inner);
            assert(!w.nodes.contains_key(inner));
            assert(at(after.nodes, inner) is Some);
            assert(!above_nothing(paths, inner));
            let k = choose|k: int| 0 <= k < all.len() && reaches(inner, #[trigger] all[k]);
            lemma_reaches_on(place, inner, all[k]);
        }
    }
}

/// Nothing is in the directories for staging and of releases.
proof fn lemma_inner_vacant(w: World, after: World, home: Seq<u8>, place: Seq<u8>)
    requires
        absolute(home),
        vacant(w.nodes, places_below(home).state),
        founded(w.nodes, after.nodes, places_below(home)),
        reaches(places_below(home).staging, place) || reaches(places_below(home).installs, place),
        place != places_below(home).staging,
        place != places_below(home).installs,
    ensures
        vacant(after.nodes, place),
{
    let paths = places_below(home);
    let all = layout(paths);
    let n = paths.state.len() as int + 1;
    lemma_layout(home);
    lemma_in_state(home, Channel::Stable);
    lemma_state_bytes(home, Channel::Stable);
    lemma_state_bytes(home, Channel::Nightly);
    lemma_lock_byte(home);
    let top = if reaches(paths.staging, place) {
        paths.staging
    } else {
        paths.installs
    };
    lemma_reaches_on(paths.state, top, place);
    assert(place.take(top.len() as int)[n] == top[n]);
    lemma_apart(place, paths.lock, n);
    assert forall|k: int| 0 <= k < all.len() implies !reaches(place, #[trigger] all[k]) by {
        if all[k] != top {
            lemma_apart(place, all[k], n);
        }
    }
    lemma_place_vacant(w, after, home, place);
}

proof fn lemma_lock_byte(home: Seq<u8>)
    requires
        absolute(home),
    ensures
        ({
            let paths = places_below(home);
            let n = paths.state.len() as int + 1;
            paths.lock.len() > n && paths.lock[n] == 111
        }),
{
    lemma_places(home);
    lemma_names();
    reveal_strlit("operation.lock");
    lemma_byte(places_below(home).state, "operation.lock"@);
}

/// Nothing is at the places beside the directories of the state and the lock.
proof fn lemma_places_vacant(w: World, after: World, home: Seq<u8>, channel: Channel)
    requires
        absolute(home),
        vacant(w.nodes, places_below(home).state),
        founded(w.nodes, after.nodes, places_below(home)),
    ensures
        ({
            let paths = places_below(home);
            let directory = paths.directory_of(channel);
            &&& vacant(after.nodes, paths.active)
            &&& vacant(after.nodes, below(paths.state, draft_name("active"@)))
            &&& vacant(after.nodes, paths.transaction)
            &&& vacant(after.nodes, transaction_draft(paths))
            &&& vacant(after.nodes, below(directory, "current"@))
            &&& vacant(after.nodes, below(directory, "previous"@))
            &&& vacant(after.nodes, below(directory, draft_name("current"@)))
            &&& vacant(after.nodes, below(directory, draft_name("previous"@)))
        }),
{
    let paths = places_below(home);
    let directory = paths.directory_of(channel);
    lemma_names();
    lemma_places(home);
    lemma_in_state(home, channel);
    lemma_channel_places(home, channel);
    lemma_state_bytes(home, channel);
    lemma_beside(w, after, home, paths.active);
    lemma_draft(paths.state, "active"@);
    lemma_draft_name("active"@);
    lemma_byte(paths.state, draft_name("active"@));
    let draft = below(paths.state, draft_name("active"@));
    assert(draft.take(paths.state.len() as int) =~= paths.state);
    lemma_beside(w, after, home, draft);
    lemma_beside(w, after, home, paths.transaction);
    lemma_beside(w, after, home, transaction_draft(paths));
    lemma_draft(directory, "current"@);
    lemma_draft(directory, "previous"@);
    lemma_link_vacant(w, after, home, channel, "current"@);
    lemma_link_vacant(w, after, home, channel, "previous"@);
    lemma_link_vacant(w, after, home, channel, draft_name("current"@));
    lemma_link_vacant(w, after, home, channel, draft_name("previous"@));
}

/// Nothing is at a place in the state directory whose name begins otherwise than those of the
/// directories of the state and of the lock.
proof fn lemma_beside(w: World, after: World, home: Seq<u8>, place: Seq<u8>)
    requires
        absolute(home),
        vacant(w.nodes, places_below(home).state),
        founded(w.nodes, after.nodes, places_below(home)),
        reaches(places_below(home).state, place),
        ({
            let n = places_below(home).state.len() as int + 1;
            place.len() > n && (place[n] == 97 || place[n] == 112 || place[n] == 46)
        }),
    ensures
        vacant(after.nodes, place),
{
    let paths = places_below(home);
    let all = layout(paths);
    let n = paths.state.len() as int + 1;
    lemma_state_bytes(home, Channel::Stable);
    lemma_state_bytes(home, Channel::Nightly);
    lemma_lock_byte(home);
    lemma_apart(place, paths.lock, n);
    assert forall|k: int| 0 <= k < all.len() implies !reaches(place, #[trigger] all[k]) by {
        lemma_apart(place, all[k], n);
    }
    lemma_place_vacant(w, after, home, place);
}

proof fn lemma_link_vacant(w: World, after: World, home: Seq<u8>, channel: Channel, name: Seq<char>)
    requires
        absolute(home),
        vacant(w.nodes, places_below(home).state),
        founded(w.nodes, after.nodes, places_below(home)),
        is_name(name),
    ensures
        vacant(after.nodes, below(places_below(home).directory_of(channel), name)),
{
    let paths = places_below(home);
    let link = below(paths.directory_of(channel), name);
    let n = paths.state.len() as int + 1;
    lemma_in_state(home, channel);
    lemma_state_bytes(home, channel);
    lemma_lock_byte(home);
    lemma_link_place(home, channel, name);
    assert(reaches(paths.state, link));
    lemma_apart(link, paths.lock, n);
    lemma_place_vacant(w, after, home, link);
}

/// The directory for staging lists nothing where the state is newly laid out.
proof fn lemma_staging_empty(w: World, after: World, home: Seq<u8>)
    requires
        absolute(home),
        dependable(after.outside, places_below(home)),
        vacant(w.nodes, places_below(home).state),
        founded(w.nodes, after.nodes, places_below(home)),
        at(after.nodes, places_below(home).staging) matches Some(node) && node is Directory,
    ensures
        after.listing(places_below(home).staging) == Names::Names(seq![]),
{
    let paths = places_below(home);
    let names = (after.outside.order)(after.nodes, paths.staging);
    lemma_places(home);
    assert(names =~= seq![]) by {
        if names.len() > 0 {
            let inner = joined(paths.staging, names[0]);
            assert(at(after.nodes, inner) is Some);
            assert(no_slash(names[0]));
            assert(inner == paths.staging.push(SLASH) + names[0]);
            assert(inner.take(paths.staging.len() as int) =~= paths.staging);
            lemma_staging_apart(home, inner);
            lemma_inner_vacant(w, after, home, inner);
            assert(reaches(inner, inner));
        }
    }
    reveal(World::listing);
    assert((after.outside.fault)(after.moment, after.nodes, Deed::List(paths.staging)) is None);
    assert((after.outside.broken)(after.moment, after.nodes, paths.staging) is None);
}

/// No channel selects anything where the state is newly laid out, and no change is pending.
proof fn lemma_nothing_selected(w: World, after: World, home: Seq<u8>, channel: Channel)
    requires
        absolute(home),
        calm(after.outside),
        vacant(w.nodes, places_below(home).state),
        founded(w.nodes, after.nodes, places_below(home)),
    ensures
        tidy(after.nodes, places_below(home), channel),
        state_of(after, places_below(home), channel) == Ok::<Selected, Seq<char>>(
            nothing_selected(),
        ),
{
    let paths = places_below(home);
    let current = below(paths.directory_of(channel), "current"@);
    let previous = below(paths.directory_of(channel), "previous"@);
    lemma_names();
    lemma_places_vacant(w, after, home, channel);
    lemma_link_place(home, channel, "current"@);
    lemma_link_place(home, channel, "previous"@);
    reveal(state_of);
    reveal(pointer_of);
    assert(reaches(current, current) && reaches(previous, previous));
    lemma_calm_sight(after, current);
    lemma_calm_sight(after, previous);
}

/// Where the state is newly laid out, nothing prevents the installation of a release.
proof fn lemma_installable(
    w: World,
    after: World,
    home: Seq<u8>,
    process: u32,
    channel: Channel,
    release: Seq<char>,
    time: u128,
)
    requires
        absolute(home),
        dependable(after.outside, places_below(home)),
        vacant(w.nodes, places_below(home).state),
        founded(w.nodes, after.nodes, places_below(home)),
        at(after.nodes, places_below(home).staging) matches Some(node) && node is Directory,
        is_release_id(release),
    ensures
        installable(
            after,
            places_below(home),
            channel,
            release,
            within(places_below(home).staging, staging_name(channel, process, time)),
        ),
{
    let paths = places_below(home);
    let name = staging_name(channel, process, time);
    let staging = within(paths.staging, name);
    let place = paths.install_of(channel, release);
    lemma_places(home);
    lemma_nothing_selected(w, after, home, channel);
    lemma_staging_empty(w, after, home);
    lemma_staging_name(channel, process, time);
    lemma_draft(paths.staging, name);
    lemma_staging(home, channel, process, time);
    lemma_staging_apart(home, staging);
    lemma_inner_vacant(w, after, home, staging);
    assert(reaches(staging, staging));
    lemma_install_place(home, channel, release);
    lemma_installs_apart(home, place);
    lemma_inner_vacant(w, after, home, place);
}

/// What is in the directory for staging is not the directory of releases.
proof fn lemma_staging_apart(home: Seq<u8>, path: Seq<u8>)
    requires
        absolute(home),
        reaches(places_below(home).staging, path),
    ensures
        path != places_below(home).installs,
{
    let paths = places_below(home);
    let n = paths.state.len() as int + 1;
    lemma_state_bytes(home, Channel::Stable);
    assert(path.take(paths.staging.len() as int)[n] == paths.staging[n]);
}

/// What is in the directory of releases is not the directory for staging.
proof fn lemma_installs_apart(home: Seq<u8>, path: Seq<u8>)
    requires
        absolute(home),
        reaches(places_below(home).installs, path),
    ensures
        path != places_below(home).staging,
{
    let paths = places_below(home);
    let n = paths.state.len() as int + 1;
    lemma_state_bytes(home, Channel::Stable);
    assert(path.take(paths.installs.len() as int)[n] == paths.installs[n]);
}

/// What is in the directory of executables, or above it, is none of the places that an installation
/// is about.
pub proof fn lemma_bin_spared(home: Seq<u8>, channel: Channel, path: Seq<u8>)
    requires
        absolute(home),
        reaches(places_below(home).local_bin, path) || reaches(path, places_below(home).local_bin),
    ensures
        spared(places_below(home), channel, path),
        path != places_below(home).lock,
        reaches(places_below(home).local_bin, path) ==> above_nothing(places_below(home), path),
{
    let paths = places_below(home);
    let directory = paths.directory_of(channel);
    let all = layout(paths);
    lemma_layout(home);
    lemma_in_state(home, channel);
    assert(reaches(paths.state, below(directory, "current"@)));
    assert(reaches(paths.state, below(directory, "previous"@)));
    assert(reaches(paths.state, below(directory, draft_name("current"@))));
    assert(reaches(paths.state, below(directory, draft_name("previous"@))));
    lemma_bin_apart(home, paths.staging, path);
    lemma_bin_apart(home, paths.installs, path);
    lemma_bin_apart(home, paths.lock, path);
    lemma_bin_apart(home, paths.transaction, path);
    lemma_bin_apart(home, transaction_draft(paths), path);
    lemma_bin_apart(home, below(directory, "current"@), path);
    lemma_bin_apart(home, below(directory, "previous"@), path);
    lemma_bin_apart(home, below(directory, draft_name("current"@)), path);
    lemma_bin_apart(home, below(directory, draft_name("previous"@)), path);
    if reaches(paths.local_bin, path) {
        assert forall|k: int| 0 <= k < all.len() implies !reaches(path, #[trigger] all[k]) by {
            lemma_bin_apart(home, all[k], path);
        }
    }
}

/// What is in the state directory has nothing in common with the directory of executables.
proof fn lemma_bin_apart(home: Seq<u8>, place: Seq<u8>, path: Seq<u8>)
    requires
        absolute(home),
        reaches(places_below(home).state, place),
        reaches(places_below(home).local_bin, path) || reaches(path, places_below(home).local_bin),
    ensures
        !reaches(place, path),
        reaches(places_below(home).local_bin, path) ==> !reaches(path, place),
{
    let paths = places_below(home);
    let n = root_of(home).len() as int + 7;
    lemma_home_bytes(home);
    lemma_apart(place, paths.local_bin, n);
    if reaches(paths.local_bin, path) {
        assert(path.take(paths.local_bin.len() as int)[n] == paths.local_bin[n]);
        lemma_apart(place, path, n);
    } else if reaches(place, path) {
        lemma_reaches_on(place, path, paths.local_bin);
    }
}

/// The executable can be exposed where what is in its directory is as it was, and nothing has come
/// above that but directories.
pub proof fn lemma_exposable_on(before: World, after: World, home: Seq<u8>)
    requires
        absolute(home),
        exposable(before, places_below(home)),
        forall|path: Seq<u8>|
            reaches(places_below(home).local_bin, path) ==> #[trigger] at(after.nodes, path) == at(
                before.nodes,
                path,
            ),
        forall|path: Seq<u8>|
            reaches(path, places_below(home).local_bin) ==> #[trigger] at(after.nodes, path) == at(
                before.nodes,
                path,
            ) || at(after.nodes, path)->0 is Directory,
    ensures
        exposable(after, places_below(home)),
{
    let paths = places_below(home);
    let bin = paths.local_bin;
    let link = below(bin, "nvim"@);
    let draft = below(bin, draft_name("nvim"@));
    lemma_places(home);
    lemma_names();
    lemma_draft(bin, "nvim"@);
    assert(reaches(bin, bin));
    assert(link.take(bin.len() as int) =~= bin);
    assert(draft.take(bin.len() as int) =~= bin);
    assert(reaches(bin, link) && reaches(bin, draft));
    assert(at(after.nodes, bin) == at(before.nodes, bin));
    assert(at(after.nodes, link) == at(before.nodes, link));
    assert(at(after.nodes, draft) == at(before.nodes, draft));
    if at(after.nodes, bin) is None {
        assert forall|other: Seq<u8>|
            after.nodes.contains_key(other) && other.len() > 0 && #[trigger] reaches(
                other,
                bin,
            ) implies after.nodes[other] is Directory || after.nodes[other] is Link by {
            if at(after.nodes, other) == at(before.nodes, other) {
                assert(before.nodes.contains_key(other));
                lemma_passable(before, bin, other);
            }
        }
    }
    if at(after.nodes, link) is None {
        assert forall|inner: Seq<u8>| #[trigger]
            after.nodes.contains_key(inner) && reaches(link, inner) implies inner == link by {
            lemma_reaches_on(bin, link, inner);
            assert(at(after.nodes, inner) == at(before.nodes, inner));
            assert(before.nodes.contains_key(inner));
        }
    }
}

/// Where the executable can be exposed, its place is accepted.
pub proof fn lemma_destination(w: World, home: Seq<u8>)
    requires
        calm(w.outside),
        exposable(w, places_below(home)),
    ensures
        destination(w, places_below(home)) is Ok,
{
    let paths = places_below(home);
    lemma_calm_sight(w, paths.local_bin);
    lemma_calm_sight(w, paths.nvim_link);
    if let Some(node) = at(w.nodes, paths.nvim_link) {
        lemma_calm_target(w, paths.nvim_link, node->target);
    }
}

/// The executable can be exposed once the state is laid out, and once a release is installed.
proof fn lemma_exposable_after(w: World, after: World, home: Seq<u8>, setting: Setting, channel: Channel)
    requires
        absolute(home),
        dependable(after.outside, places_below(home)),
        exposable(w, places_below(home)),
        founded(w.nodes, after.nodes, places_below(home)),
    ensures
        exposable(after, places_below(home)),
        exposable(
            missing_installed(after, places_below(home), setting, channel).1,
            places_below(home),
        ),
{
    let paths = places_below(home);
    let bin = paths.local_bin;
    let last = missing_installed(after, paths, setting, channel).1;
    assert forall|path: Seq<u8>| reaches(bin, path) implies #[trigger] at(after.nodes, path) == at(
        w.nodes,
        path,
    ) by {
        lemma_bin_spared(home, channel, path);
    }
    assert forall|path: Seq<u8>| reaches(path, bin) implies #[trigger] at(after.nodes, path) == at(
        w.nodes,
        path,
    ) || at(after.nodes, path)->0 is Directory by {
        lemma_bin_spared(home, channel, path);
    }
    lemma_exposable_on(w, after, home);
    assert forall|path: Seq<u8>| reaches(bin, path) || reaches(path, bin) implies #[trigger] at(
        last.nodes,
        path,
    ) == at(after.nodes, path) by {
        lemma_bin_spared(home, channel, path);
        missing_installed_keeps(after, home, setting, channel, path);
    }
    lemma_exposable_on(after, last, home);
}

/// What the first installation in a home without state comes to, and the first use of a channel.
#[verifier::rlimit(40)]
#[verifier::spinoff_prover]
proof fn lemma_begun(
    w: World,
    home: Seq<u8>,
    setting: Setting,
    channel: Channel,
    offer: Offer,
    root: Seq<u8>,
    version: Seq<char>,
)
    requires
        absolute(home),
        dependable(w.outside, places_below(home)),
        fresh(w, places_below(home)),
        provides(
            laid_out(w, places_below(home), setting.process),
            places_below(home),
            setting,
            channel,
            offer,
            root,
            version,
        ),
    ensures
        ({
            let paths = places_below(home);
            let begun = laid_out(w, paths, setting.process);
            let (installed, w1) = missing_installed(begun, paths, setting, channel);
            let (used, w2) = channel_used(begun, paths, setting, channel);
            let due = Ok::<Selected, Seq<char>>(only_release(paths, channel, offer, version));
            &&& installed is Ok
            &&& w1.outside == w.outside
            &&& state_of(w1, paths, channel) == due
            &&& used is Ok
            &&& w2.outside == w.outside
            &&& in_use(w2.nodes, paths, channel)
            &&& state_of(w2, paths, channel) == due
        }),
{
    let paths = places_below(home);
    let begun = laid_out(w, paths, setting.process);
    let time = begun.time().0->Ok_0;
    let name = staging_name(channel, setting.process, time);
    let staging = within(paths.staging, name);
    let active_draft = below(paths.state, draft_name("active"@));
    lemma_laid_out(w, home, setting.process);
    assert(begun.time().0 is Ok) by {
        reveal(World::time);
        assert((begun.outside.clock)(begun.moment) is Ok);
    }
    lemma_first_staging(w, begun, home, setting.process, channel, time);
    lemma_offered(
        staging_created(begun, paths, channel, setting.process).1,
        setting,
        channel,
        staging,
    );
    lemma_installable(w, begun, home, setting.process, channel, offer.id, time);
    lemma_nothing_selected(w, begun, home, channel);
    lemma_exposable_after(w, begun, home, setting, channel);
    lemma_destination(begun, home);
    lemma_places_vacant(w, begun, home, channel);
    assert(reaches(active_draft, active_draft));
    first_use_succeeds(begun, home, setting, channel, time, offer, root, version);
    offered_release_is_installed(
        begun,
        home,
        setting,
        channel,
        nothing_selected(),
        time,
        offer,
        root,
        version,
    );
}

/// The first staging directory is made if nothing fails.
proof fn lemma_first_staging(
    w: World,
    after: World,
    home: Seq<u8>,
    process: u32,
    channel: Channel,
    time: u128,
)
    requires
        absolute(home),
        dependable(after.outside, places_below(home)),
        vacant(w.nodes, places_below(home).state),
        founded(w.nodes, after.nodes, places_below(home)),
        at(after.nodes, places_below(home).staging) matches Some(node) && node is Directory,
        after.time().0 == Ok::<u128, Seq<char>>(time),
    ensures
        staging_created(after, places_below(home), channel, process).0 == Ok::<
            Seq<u8>,
            Seq<char>,
        >(within(places_below(home).staging, staging_name(channel, process, time))),
{
    let paths = places_below(home);
    let name = staging_name(channel, process, time);
    let staging = within(paths.staging, name);
    let w1 = after.time().1;
    assert(w1.outside == after.outside && w1.nodes == after.nodes) by {
        reveal(World::time);
    }
    lemma_places(home);
    lemma_staging_empty(w, after, home);
    lemma_staging_name(channel, process, time);
    lemma_draft(paths.staging, name);
    lemma_staging(home, channel, process, time);
    lemma_staging_apart(home, staging);
    lemma_inner_vacant(w, after, home, staging);
    assert(reaches(staging, staging));
    lemma_calm_attempt(w1, Deed::MakeDirectory(staging));
}

/// An operation that comes to its end in a newly laid out state is carried out with all that is done
/// around it.
proof fn lemma_operated_first(
    w: World,
    home: Seq<u8>,
    setting: Setting,
    channel: Channel,
    operation: Operation,
)
    requires
        absolute(home),
        dependable(w.outside, places_below(home)),
        fresh(w, places_below(home)),
        programs_present(w, required_programs()).0 is Ok,
        ({
            let paths = places_below(home);
            let begun = laid_out(w, paths, setting.process);
            let (done, after) = match operation {
                Operation::Use(channel) => channel_used(begun, paths, setting, channel),
                Operation::Install(channel) => missing_installed(begun, paths, setting, channel),
                _ => (Err(seq![]), begun),
            };
            &&& done is Ok
            &&& after.outside == w.outside
            &&& state_of(after, paths, channel) is Ok
        }),
    ensures
        ({
            let paths = places_below(home);
            let begun = laid_out(w, paths, setting.process);
            let before = match operation {
                Operation::Use(channel) => channel_used(begun, paths, setting, channel).1,
                Operation::Install(channel) => missing_installed(
                    begun,
                    paths,
                    setting,
                    channel,
                ).1,
                _ => begun,
            };
            let (done, after) = beginning(w, paths, setting, operation);
            &&& done is Ok
            &&& at(after.nodes, paths.lock) is None
            &&& state_of(after, paths, channel) == state_of(before, paths, channel)
            &&& forall|path: Seq<u8>|
                path != paths.lock ==> #[trigger] at(after.nodes, path) == at(before.nodes, path)
        }),
{
    let paths = places_below(home);
    let w1 = programs_present(w, required_programs()).1;
    let w2 = state_root_prepared(w1, paths).1;
    let w3 = lock_taken(w2, paths, setting.process).1;
    let begun = laid_out(w, paths, setting.process);
    lemma_laid_out(w, home, setting.process);
    let before = operated(w3, paths, setting, operation).1;
    let after = beginning(w, paths, setting, operation).1;
    operation_succeeds_with_lock(w2, home, setting, operation);
    assert(after == locked(w2, paths, setting, operation).1);
    assert forall|path: Seq<u8>| path != paths.lock implies #[trigger] kept(before, after, path) by {}
    lemma_lock_spared(home, channel);
    lemma_layout(home);
    assert(kept(before, after, paths.link_of(channel, "current"@)));
    assert(kept(before, after, paths.link_of(channel, "previous"@)));
    assert(!reaches(paths.installs, paths.lock));
    lemma_state_kept(before, after, home, channel);
    assert forall|path: Seq<u8>| path != paths.lock implies #[trigger] at(after.nodes, path) == at(
        before.nodes,
        path,
    ) by {
        assert(kept(before, after, path));
    }
}

/// The arguments of a command that names a channel.
pub open spec fn words(command: Seq<char>, channel: Channel) -> Seq<Seq<u8>> {
    seq![encode_utf8(command), encode_utf8(channel.name())]
}

/// `nv use` and `nv install` with a channel are understood.
proof fn lemma_words(channel: Channel)
    ensures
        command_line(words("use"@, channel)) == Ok::<Cli, Seq<char>>(Cli::Use(channel)),
        command_line(words("install"@, channel)) == Ok::<Cli, Seq<char>>(Cli::Install(channel)),
{
    lemma_names();
    reveal_strlit("use");
    reveal_strlit("install");
    assert(is_ascii_chars("use"@) && is_ascii_chars("install"@));
    lemma_ascii("use"@);
    lemma_ascii("install"@);
    lemma_ascii(channel.name());
    channel_found_by_name(channel);
}

/// In a home without state, on a machine on which nothing fails and which provides the release that
/// a channel offers, `nv use` succeeds: the channel is in use, and that release is its current one.
pub proof fn use_in_fresh_home_succeeds(
    w: World,
    host: Host,
    home: Seq<u8>,
    channel: Channel,
    offer: Offer,
    root: Seq<u8>,
    version: Seq<char>,
)
    requires
        platform(host.os@, host.arch@) is Ok,
        host.home.deep_view() == Some(home),
        absolute(home),
        dependable(w.outside, places_below(home)),
        fresh(w, places_below(home)),
        programs_present(w, required_programs()).0 is Ok,
        provides(
            laid_out(w, places_below(home), host.setting.process),
            places_below(home),
            host.setting,
            channel,
            offer,
            root,
            version,
        ),
    ensures
        ({
            let paths = places_below(home);
            let (done, after) = program_run(w, host, words("use"@, channel));
            &&& done is Ok
            &&& in_use(after.nodes, paths, channel)
            &&& state_of(after, paths, channel) == Ok::<Selected, Seq<char>>(
                only_release(paths, channel, offer, version),
            )
            &&& at(after.nodes, paths.lock) is None
        }),
{
    lemma_words(channel);
    lemma_begun(w, home, host.setting, channel, offer, root, version);
    lemma_operated_first(w, home, host.setting, channel, Operation::Use(channel));
    lemma_lock_spared(home, channel);
}

/// In a home without state, on a machine on which nothing fails and which provides the release that
/// a channel offers, `nv install` succeeds, and that release is the current one of the channel.
pub proof fn installation_in_fresh_home_succeeds(
    w: World,
    host: Host,
    home: Seq<u8>,
    channel: Channel,
    offer: Offer,
    root: Seq<u8>,
    version: Seq<char>,
)
    requires
        platform(host.os@, host.arch@) is Ok,
        host.home.deep_view() == Some(home),
        absolute(home),
        dependable(w.outside, places_below(home)),
        fresh(w, places_below(home)),
        programs_present(w, required_programs()).0 is Ok,
        provides(
            laid_out(w, places_below(home), host.setting.process),
            places_below(home),
            host.setting,
            channel,
            offer,
            root,
            version,
        ),
    ensures
        ({
            let paths = places_below(home);
            let (done, after) = program_run(w, host, words("install"@, channel));
            &&& done is Ok
            &&& state_of(after, paths, channel) == Ok::<Selected, Seq<char>>(
                only_release(paths, channel, offer, version),
            )
            &&& at(after.nodes, paths.lock) is None
        }),
{
    lemma_words(channel);
    lemma_begun(w, home, host.setting, channel, offer, root, version);
    lemma_operated_first(w, home, host.setting, channel, Operation::Install(channel));
}

} // verus!
