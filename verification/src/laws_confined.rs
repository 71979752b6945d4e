//! Which places are changed at all.

use vstd::prelude::*;
use vstd::utf8::*;

use crate::activation::{
    activation_deeds, active_channel, active_deeds, active_target, bin_prepared, deactivation_deeds,
    destination_deeds, exposing_deeds, exposure_deeds, nvim_linked,
};
use crate::changes::lemma_channel_places;
use crate::channel::{Channel, ChannelSelection};
use crate::cleanup::{cleanup_deeds, clearing_deeds, installs_cleaned, search_deeds, unreferenced};
use crate::cli::{command_line, Cli};
use crate::command_frames::{deactivated_keeps, selections_removed_keeps};
use crate::commands::{
    channel_or_none, empty_status, installed_states, installs_deeds, lines_deeds, removals,
    remove_deeds, report_deeds, rollback_deeds, selection_removed, selections_deeds,
    selections_removed, status_deeds, status_lines, swap, unused_deeds, update_deeds, use_ended,
};
use crate::confined::{group_tame, is_own, is_tame, tame};
use crate::disk::{no_slash, orderly, selection};
use crate::frames::{
    change_recovered_keeps, layout_ensured_keeps, lemma_inside, lemma_reaches_on, lemma_staging,
    lock_taken_keeps,
};
use crate::host::{reaches, Deed, Names, World};
use crate::install::{
    adding_deeds, archive_fetched, channel_installed, choosing_deeds, conclusion_deeds,
    extraction_deeds, fetching_deeds, install_deeds, missing_deeds, missing_installed,
    obtaining_deeds, publication_deeds, record_of, release_obtained, release_selected,
    release_staged, renewal_deeds, taking_deeds,
};
use crate::install_frames::{
    channel_installed_keeps, lemma_unreferenced, release_selected_keeps, staging_created_keeps,
};
use crate::installation::{
    installation_deeds, pointer_deeds, state_deeds, state_of, states_deeds, states_of, Installed,
    Selected,
};
use crate::laws_command::{lemma_before_lock, lemma_lock_apart};
use crate::laws_installed::lemma_offered;
use crate::laws_locked::lemma_lock_spared;
use crate::layout::{
    directory_deeds, inspections, layout_deeds, layout_ensured, lock_taken, making_deeds, printed,
    private_made, state_root_prepared,
};
use crate::locate::{below, draft_name, is_name, is_place, lemma_draft, lemma_names, lemma_places};
use crate::metadata::Record;
use crate::path::{absolute, joined};
use crate::paths::{layout, link_target, places_below, places_of, within, NVIM_LINK_TARGET, Places};
use crate::pointers::{
    change_committed, change_recovered, committing_deeds, finishing_deeds, following_deeds,
    link_replaced, note_written, recovery_deeds, replacement, replacing_deeds, second_half_deeds,
    transaction_draft,
};
use crate::programs::{
    offer_deeds, offer_resolved, presence_deeds, program_present, programs_present,
    required_programs, Offer, Setting,
};
use crate::release::{is_release_id, ASSET_NAME};
use crate::run::{
    beginning_deeds, command_deeds, continuing_deeds, locked_deeds, operation_deeds, program_deeds,
    recovered_deeds, showing_deeds, use_deeds, Host, Operation,
};
use crate::separation::{
    lemma_active_spared, lemma_in_state, lemma_install_place, lemma_state_bytes,
};
use crate::staging::{creation_deeds, staging_created, staging_name};
use crate::text::lines;
use crate::transaction::{change_in, Change};

verus! {

broadcast use group_tame;

/// The places of nv are its own.
proof fn lemma_own(home: Seq<u8>, channel: Channel)
    requires
        absolute(home),
    ensures
        ({
            let paths = places_below(home);
            let directory = paths.directory_of(channel);
            &&& is_own(home, paths.state)
            &&& is_own(home, paths.installs)
            &&& is_own(home, paths.channels)
            &&& is_own(home, paths.staging)
            &&& is_own(home, paths.active)
            &&& is_own(home, paths.lock)
            &&& is_own(home, paths.transaction)
            &&& is_own(home, transaction_draft(paths))
            &&& is_own(home, paths.local_bin)
            &&& is_own(home, paths.nvim_link)
            &&& is_own(home, directory)
        }),
{
    let paths = places_below(home);
    lemma_places(home);
    lemma_in_state(home, channel);
    lemma_state_bytes(home, channel);
    lemma_layout_own(home);
    assert(reaches(paths.state, paths.state));
    assert(reaches(paths.local_bin, paths.local_bin));
    assert(paths.nvim_link.take(paths.local_bin.len() as int) =~= paths.local_bin);
}

proof fn lemma_layout_own(home: Seq<u8>)
    requires
        absolute(home),
    ensures
        reaches(places_below(home).state, places_below(home).lock),
{
    let paths = places_below(home);
    lemma_places(home);
    assert(paths.lock.take(paths.state.len() as int) =~= paths.state);
}

/// What is in a directory of nv's own is its own.
proof fn lemma_own_below(home: Seq<u8>, base: Seq<u8>, name: Seq<char>)
    requires
        is_own(home, base),
    ensures
        is_own(home, below(base, name)),
{
    let paths = places_below(home);
    let path = below(base, name);
    assert(path.take(base.len() as int) =~= base);
    assert(reaches(base, path));
    if reaches(paths.state, base) {
        lemma_reaches_on(paths.state, base, path);
    } else {
        lemma_reaches_on(paths.local_bin, base, path);
    }
}

proof fn lemma_replacing_tame(w: World, home: Seq<u8>, base: Seq<u8>, name: Seq<char>, target: Seq<u8>)
    requires
        is_place(base),
        is_name(name),
        is_own(home, base),
    ensures
        tame(replacing_deeds(w, below(base, name), target), home),
{
    lemma_draft(base, name);
    lemma_own_below(home, base, name);
    lemma_own_below(home, base, draft_name(name));
}

proof fn lemma_looking_tame(
    w: World,
    paths: Places,
    path: Seq<u8>,
    expected: Option<Channel>,
    channel: Channel,
    home: Seq<u8>,
)
    ensures
        tame(installation_deeds(w, paths, path, expected), home),
        tame(state_deeds(w, paths, channel), home),
{
    reveal(installation_deeds);
    reveal(state_deeds);
    lemma_pointer_tame(w, paths, channel, "current"@, home);
    lemma_pointer_tame(w, paths, channel, "previous"@, home);
}

proof fn lemma_pointer_tame(
    w: World,
    paths: Places,
    channel: Channel,
    which: Seq<char>,
    home: Seq<u8>,
)
    ensures
        tame(pointer_deeds(w, paths, channel, which), home),
{
    reveal(pointer_deeds);
    reveal(installation_deeds);
}

proof fn lemma_states_tame(w: World, paths: Places, home: Seq<u8>)
    ensures
        tame(states_deeds(w, paths), home),
{
    lemma_looking_tame(w, paths, paths.installs, None, Channel::Stable, home);
    lemma_looking_tame(w, paths, paths.installs, None, Channel::Nightly, home);
}

proof fn lemma_second_half_tame(w: World, home: Seq<u8>, change: Change)
    requires
        absolute(home),
    ensures
        tame(second_half_deeds(w, places_below(home), change), home),
{
    let paths = places_below(home);
    let directory = paths.directory_of(change.channel);
    let link = paths.link_of(change.channel, "current"@);
    let target = link_target(change.current);
    lemma_own(home, change.channel);
    lemma_names();
    lemma_channel_places(home, change.channel);
    lemma_replacing_tame(w, home, directory, "current"@, target);
    let w1 = link_replaced(w, link, target).1;
    lemma_looking_tame(w1, paths, paths.installs, None, change.channel, home);
}

proof fn lemma_finishing_tame(w: World, home: Seq<u8>, change: Change)
    requires
        absolute(home),
    ensures
        tame(finishing_deeds(w, places_below(home), change), home),
{
    let paths = places_below(home);
    let channel = change.channel;
    let directory = paths.directory_of(channel);
    lemma_own(home, channel);
    lemma_names();
    lemma_channel_places(home, channel);
    lemma_looking_tame(
        w,
        paths,
        within(paths.installs, change.current),
        Some(channel),
        channel,
        home,
    );
    lemma_second_half_tame(w, home, change);
    if let Some(previous) = change.previous {
        let link = paths.link_of(channel, "previous"@);
        lemma_looking_tame(
            w,
            paths,
            within(paths.installs, previous),
            Some(channel),
            channel,
            home,
        );
        lemma_replacing_tame(w, home, directory, "previous"@, link_target(previous));
        lemma_second_half_tame(link_replaced(w, link, link_target(previous)).1, home, change);
    }
}

proof fn lemma_committing_tame(w: World, home: Seq<u8>, change: Change)
    requires
        absolute(home),
    ensures
        tame(committing_deeds(w, places_below(home), change), home),
{
    reveal(committing_deeds);
    let paths = places_below(home);
    lemma_own(home, change.channel);
    lemma_finishing_tame(note_written(w, paths, change).1, home, change);
}

proof fn lemma_following_tame(w: World, home: Seq<u8>)
    requires
        absolute(home),
    ensures
        tame(following_deeds(w, places_below(home)), home),
{
    let paths = places_below(home);
    if let Ok(text) = w.text(paths.transaction) {
        if let Ok(change) = change_in(text, paths.transaction) {
            lemma_finishing_tame(w, home, change);
        }
    }
}

proof fn lemma_recovery_tame(w: World, home: Seq<u8>)
    requires
        absolute(home),
    ensures
        tame(recovery_deeds(w, places_below(home)), home),
{
    reveal(recovery_deeds);
    let paths = places_below(home);
    lemma_own(home, Channel::Stable);
    lemma_following_tame(w, home);
    lemma_following_tame(w.attempt(Deed::RemoveFile(transaction_draft(paths))).1, home);
}

proof fn lemma_active_tame(w: World, paths: Places, home: Seq<u8>)
    ensures
        tame(active_deeds(w, paths), home),
{
    lemma_looking_tame(w, paths, paths.installs, None, Channel::Stable, home);
    lemma_looking_tame(w, paths, paths.installs, None, Channel::Nightly, home);
}

proof fn lemma_exposing_tame(w: World, home: Seq<u8>)
    requires
        absolute(home),
    ensures
        tame(exposing_deeds(w, places_below(home)), home),
        tame(destination_deeds(w, places_below(home)), home),
        tame(exposure_deeds(w, places_below(home)), home),
        tame(deactivation_deeds(w, places_below(home)), home),
{
    let paths = places_below(home);
    let w1 = bin_prepared(w, paths).1;
    lemma_own(home, Channel::Stable);
    lemma_places(home);
    lemma_names();
    lemma_replacing_tame(w1, home, paths.local_bin, "nvim"@, encode_utf8(NVIM_LINK_TARGET@));
}

#[verifier::rlimit(40)]
#[verifier::spinoff_prover]
proof fn lemma_activation_tame(w: World, home: Seq<u8>, channel: Channel)
    requires
        absolute(home),
    ensures
        tame(activation_deeds(w, places_below(home), channel), home),
{
    reveal(activation_deeds);
    let paths = places_below(home);
    let target = active_target(channel);
    lemma_own(home, channel);
    lemma_places(home);
    lemma_names();
    lemma_looking_tame(w, paths, paths.installs, None, channel, home);
    lemma_active_tame(w, paths, home);
    lemma_exposing_tame(w, home);
    let w1 = nvim_linked(w, paths).1;
    lemma_replacing_tame(w1, home, paths.state, "active"@, target);
    lemma_active_tame(link_replaced(w1, paths.active, target).1, paths, home);
}

proof fn lemma_search_tame(w: World, paths: Places, names: Seq<Seq<u8>>, home: Seq<u8>)
    ensures
        tame(search_deeds(w, paths, names), home),
    decreases names.len(),
{
    if names.len() > 0 {
        lemma_looking_tame(
            w,
            paths,
            joined(paths.installs, names[0]),
            None,
            Channel::Stable,
            home,
        );
        lemma_search_tame(w, paths, names.skip(1), home);
    }
}

proof fn lemma_clearing_tame(w: World, trees: Seq<Seq<u8>>, home: Seq<u8>)
    requires
        forall|k: int|
            0 <= k < trees.len() ==> reaches(places_below(home).installs, #[trigger] trees[k]),
    ensures
        tame(clearing_deeds(w, trees), home),
    decreases trees.len(),
{
    if trees.len() > 0 {
        let rest = trees.skip(1);
        assert forall|k: int| 0 <= k < rest.len() implies reaches(
            places_below(home).installs,
            #[trigger] rest[k],
        ) by {
            assert(rest[k] == trees[k + 1]);
        }
        assert(reaches(places_below(home).installs, trees[0]));
        lemma_clearing_tame(w.attempt(Deed::RemoveTree(trees[0])).1, rest, home);
    }
}

proof fn lemma_cleanup_tame(w: World, home: Seq<u8>)
    requires
        absolute(home),
        orderly(w.outside, places_below(home)),
    ensures
        tame(cleanup_deeds(w, places_below(home)), home),
{
    reveal(cleanup_deeds);
    let paths = places_below(home);
    lemma_places(home);
    lemma_states_tame(w, paths, home);
    if let Ok(states) = states_of(w, paths) {
        if let Names::Names(names) = w.listing(paths.installs) {
            assert forall|k: int| 0 <= k < names.len() implies no_slash(#[trigger] names[k]) by {
                reveal(World::listing);
            }
            lemma_search_tame(w, paths, names, home);
            lemma_unreferenced(w, paths, states, names);
            if let Ok(trees) = unreferenced(w, paths, states, names) {
                lemma_clearing_tame(w, trees, home);
            }
        }
    }
}

proof fn lemma_selections_tame(w: World, home: Seq<u8>, states: Seq<(Channel, Selected)>)
    requires
        absolute(home),
    ensures
        tame(selections_deeds(w, places_below(home), states), home),
    decreases states.len(),
{
    let paths = places_below(home);
    if states.len() > 0 {
        let channel = states[0].0;
        let after = selection_removed(w, paths, channel, states[0].1).1;
        lemma_own(home, channel);
        lemma_channel_places(home, channel);
        lemma_own_below(home, paths.directory_of(channel), "current"@);
        lemma_own_below(home, paths.directory_of(channel), "previous"@);
        lemma_selections_tame(after, home, states.skip(1));
    }
}

proof fn lemma_report_tame(w: World, states: Seq<(Channel, Selected)>, home: Seq<u8>)
    ensures
        tame(report_deeds(w, states), home),
    decreases states.len(),
{
    if states.len() > 0 {
        let line = "removed "@ + states[0].0.name();
        lemma_report_tame(printed(w, line).1, states.skip(1), home);
    }
}

/// The world before the releases are cleaned up is on the same machine.
proof fn lemma_bare_outside(w: World, home: Seq<u8>, states: Seq<(Channel, Selected)>)
    requires
        absolute(home),
        orderly(w.outside, places_below(home)),
    ensures
        ({
            let paths = places_below(home);
            selections_removed(use_ended(w, paths, states).1, paths, states).1.outside == w.outside
        }),
{
    let paths = places_below(home);
    lemma_lock_spared(home, Channel::Stable);
    lemma_lock_spared(home, Channel::Nightly);
    deactivated_keeps(w, paths, paths.lock);
    assert forall|k: int| 0 <= k < states.len() implies paths.lock != paths.link_of(
        (#[trigger] states[k]).0,
        "current"@,
    ) && paths.lock != paths.link_of(states[k].0, "previous"@) by {
        lemma_lock_spared(home, states[k].0);
    }
    selections_removed_keeps(use_ended(w, paths, states).1, paths, states, paths.lock);
}

#[verifier::rlimit(40)]
#[verifier::spinoff_prover]
proof fn lemma_removal_tame(w: World, home: Seq<u8>, selection: ChannelSelection)
    requires
        absolute(home),
        orderly(w.outside, places_below(home)),
    ensures
        tame(remove_deeds(w, places_below(home), selection), home),
{
    reveal(remove_deeds);
    reveal(unused_deeds);
    let paths = places_below(home);
    lemma_states_tame(w, paths, home);
    lemma_looking_tame(w, paths, paths.installs, None, Channel::Stable, home);
    lemma_looking_tame(w, paths, paths.installs, None, Channel::Nightly, home);
    if let Ok(states) = removals(w, paths, selection) {
        lemma_active_tame(w, paths, home);
        lemma_exposing_tame(w, home);
        let w1 = use_ended(w, paths, states).1;
        lemma_selections_tame(w1, home, states);
        let w2 = selections_removed(w1, paths, states).1;
        lemma_bare_outside(w, home, states);
        lemma_cleanup_tame(w2, home);
        lemma_report_tame(installs_cleaned(w2, paths).1, states, home);
    }
}

proof fn lemma_rollback_tame(w: World, home: Seq<u8>, channel: Channel)
    requires
        absolute(home),
    ensures
        tame(rollback_deeds(w, places_below(home), channel), home),
{
    reveal(rollback_deeds);
    let paths = places_below(home);
    lemma_looking_tame(w, paths, paths.installs, None, channel, home);
    if let Ok(Selected { current: Some(current), previous: Some(previous) }) = state_of(
        w,
        paths,
        channel,
    ) {
        let change = swap(channel, current, previous);
        lemma_committing_tame(w, home, change);
        let w1 = change_committed(w, paths, change).1;
        lemma_looking_tame(w1, paths, paths.installs, None, channel, home);
    }
}

proof fn lemma_lines_tame(w: World, lines: Seq<Seq<char>>, home: Seq<u8>)
    ensures
        tame(lines_deeds(w, lines), home),
    decreases lines.len(),
{
    if lines.len() > 0 {
        lemma_lines_tame(printed(w, lines[0]).1, lines.skip(1), home);
    }
}

proof fn lemma_directories_tame(w: World, paths: Seq<Seq<u8>>, home: Seq<u8>)
    requires
        forall|k: int| 0 <= k < paths.len() ==> is_own(home, #[trigger] paths[k]),
    ensures
        tame(directory_deeds(w, paths), home),
        tame(making_deeds(w, paths), home),
        tame(inspections(paths), home),
    decreases paths.len(),
{
    if paths.len() > 0 {
        let rest = paths.skip(1);
        assert forall|k: int| 0 <= k < rest.len() implies is_own(home, #[trigger] rest[k]) by {
            assert(rest[k] == paths[k + 1]);
        }
        assert(is_own(home, paths[0]));
        lemma_directories_tame(w, rest, home);
        lemma_directories_tame(private_made(w, paths[0]).1, rest, home);
    }
    assert(tame(inspections(paths), home)) by {
        reveal(tame);
    }
}

proof fn lemma_status_tame(w: World, home: Seq<u8>)
    requires
        absolute(home),
    ensures
        tame(status_deeds(w, places_below(home)), home),
{
    reveal(status_deeds);
    let paths = places_below(home);
    lemma_own(home, Channel::Stable);
    lemma_own(home, Channel::Nightly);
    lemma_directories_tame(w, layout(paths), home);
    lemma_active_tame(w, paths, home);
    lemma_exposing_tame(w, home);
    if let Ok(active) = active_channel(w, paths) {
        let w1 = printed(w, "active: "@ + channel_or_none(active)).1;
        lemma_states_tame(w1, paths, home);
        if let Ok(states) = states_of(w1, paths) {
            lemma_lines_tame(
                w1,
                status_lines(states[0].0, states[0].1) + status_lines(states[1].0, states[1].1),
                home,
            );
        }
    }
}

proof fn lemma_staged_own(home: Seq<u8>, staging: Seq<u8>, text: Seq<char>)
    requires
        absolute(home),
        is_place(staging),
        reaches(places_below(home).staging, staging),
        is_ascii_chars(text),
        text.len() > 0,
        text[0] != '/',
        text.last() != '/',
        text.last() != '.',
    ensures
        reaches(places_below(home).staging, within(staging, text)),
        is_place(within(staging, text)),
        is_own(home, within(staging, text)),
{
    let paths = places_below(home);
    lemma_in_state(home, Channel::Stable);
    lemma_inside(paths.staging, staging, text);
    lemma_reaches_on(paths.state, paths.staging, within(staging, text));
}

proof fn lemma_fetching_tame(w: World, setting: Setting, offer: Offer, archive: Seq<u8>, home: Seq<u8>)
    ensures
        tame(fetching_deeds(w, setting, offer, archive), home),
{
}

proof fn lemma_extraction_tame(w: World, archive: Seq<u8>, extraction: Seq<u8>, home: Seq<u8>)
    requires
        is_own(home, extraction),
    ensures
        tame(extraction_deeds(w, archive, extraction), home),
{
}

proof fn lemma_publication_tame(
    w: World,
    paths: Places,
    root: Seq<u8>,
    place: Seq<u8>,
    record: Record,
    home: Seq<u8>,
)
    requires
        is_own(home, root),
        is_own(home, within(root, ".nv-metadata"@)),
        is_own(home, place),
    ensures
        tame(publication_deeds(w, paths, root, place, record), home),
{
}

/// The places that an unpacked release goes through are nv's own.
proof fn lemma_root_own(home: Seq<u8>, staging: Seq<u8>)
    requires
        absolute(home),
        is_place(staging),
        reaches(places_below(home).staging, staging),
    ensures
        ({
            let extraction = within(staging, "extracted"@);
            let root = within(extraction, "nvim-linux-x86_64"@);
            &&& is_own(home, extraction)
            &&& is_own(home, root)
            &&& is_own(home, within(root, ".nv-metadata"@))
        }),
{
    let extraction = within(staging, "extracted"@);
    reveal_strlit("extracted");
    lemma_staged_own(home, staging, "extracted"@);
    reveal_strlit("nvim-linux-x86_64");
    lemma_staged_own(home, extraction, "nvim-linux-x86_64"@);
    reveal_strlit(".nv-metadata");
    lemma_staged_own(home, within(extraction, "nvim-linux-x86_64"@), ".nv-metadata"@);
}

/// A release is found where its archive was unpacked.
proof fn lemma_staged_root(w: World, archive: Seq<u8>, extraction: Seq<u8>)
    ensures
        release_staged(w, archive, extraction).0 matches Ok((root, _)) ==> root == within(
            extraction,
            "nvim-linux-x86_64"@,
        ),
{
    reveal(release_staged);
}

#[verifier::rlimit(60)]
#[verifier::spinoff_prover]
proof fn lemma_adding_tame(
    w: World,
    home: Seq<u8>,
    setting: Setting,
    channel: Channel,
    offer: Offer,
    staging: Seq<u8>,
)
    requires
        absolute(home),
        is_release_id(offer.id),
        is_place(staging),
        reaches(places_below(home).staging, staging),
    ensures
        tame(adding_deeds(w, places_below(home), setting, channel, offer, staging), home),
{
    reveal(adding_deeds);
    let paths = places_below(home);
    let place = paths.install_of(channel, offer.id);
    let archive = within(staging, ASSET_NAME@ + ".part"@);
    let extraction = within(staging, "extracted"@);
    lemma_root_own(home, staging);
    assert(is_own(home, place)) by {
        lemma_in_state(home, channel);
        lemma_install_place(home, channel, offer.id);
        lemma_reaches_on(paths.state, paths.installs, place);
    }
    lemma_fetching_tame(w, setting, offer, archive, home);
    let w1 = archive_fetched(w, setting, offer, archive).1;
    lemma_extraction_tame(w1, archive, extraction, home);
    let (staged, w2) = release_staged(w1, archive, extraction);
    if let Ok((root, version)) = staged {
        lemma_staged_root(w1, archive, extraction);
        let record = record_of(channel, offer, version);
        lemma_publication_tame(w2, paths, root, place, record, home);
    }
}

proof fn lemma_obtaining_tame(
    w: World,
    home: Seq<u8>,
    setting: Setting,
    channel: Channel,
    offer: Offer,
    staging: Seq<u8>,
)
    requires
        absolute(home),
        is_release_id(offer.id),
        is_place(staging),
        reaches(places_below(home).staging, staging),
    ensures
        tame(obtaining_deeds(w, places_below(home), setting, channel, offer, staging), home),
{
    reveal(obtaining_deeds);
    let paths = places_below(home);
    let place = paths.install_of(channel, offer.id);
    lemma_looking_tame(w, paths, place, Some(channel), channel, home);
    lemma_adding_tame(w, home, setting, channel, offer, staging);
}

proof fn lemma_choosing_tame(
    w: World,
    home: Seq<u8>,
    setting: Setting,
    channel: Channel,
    had: Option<Installed>,
    staging: Seq<u8>,
)
    requires
        absolute(home),
        is_place(staging),
        reaches(places_below(home).staging, staging),
    ensures
        tame(choosing_deeds(w, places_below(home), setting, channel, had, staging), home),
{
    reveal(choosing_deeds);
    reveal(taking_deeds);
    reveal(offer_deeds);
    let paths = places_below(home);
    let (resolved, w1) = offer_resolved(w, setting, channel, staging);
    if let Ok(offer) = resolved {
        lemma_offered(w, setting, channel, staging);
        lemma_obtaining_tame(w1, home, setting, channel, offer, staging);
        let (obtained, w2) = release_obtained(w1, paths, setting, channel, offer, staging);
        if let Ok(record) = obtained {
            lemma_committing_tame(w2, home, replacement(channel, had, record));
        }
    }
}

proof fn lemma_install_tame(w: World, home: Seq<u8>, setting: Setting, channel: Channel)
    requires
        absolute(home),
        orderly(w.outside, places_below(home)),
    ensures
        tame(install_deeds(w, places_below(home), setting, channel), home),
{
    reveal(install_deeds);
    reveal(renewal_deeds);
    reveal(conclusion_deeds);
    let paths = places_below(home);
    lemma_looking_tame(w, paths, paths.installs, None, channel, home);
    lemma_active_spared(home, channel);
    staging_created_keeps(w, home, channel, setting.process, paths.active);
    lemma_creation_tame(w, home, channel, setting.process);
    if let Ok(selected) = state_of(w, paths, channel) {
        let had = selected.current;
        let (created, w1) = staging_created(w, paths, channel, setting.process);
        if let Ok(staging) = created {
            lemma_choosing_tame(w1, home, setting, channel, had, staging);
            release_selected_keeps(w1, home, setting, channel, had, staging, paths.active);
            let (chosen, w2) = release_selected(w1, paths, setting, channel, had, staging);
            lemma_cleanup_tame(w2, home);
        }
    }
}

proof fn lemma_creation_tame(w: World, home: Seq<u8>, channel: Channel, process: u32)
    requires
        absolute(home),
    ensures
        tame(creation_deeds(w, places_below(home), channel, process), home),
{
    let paths = places_below(home);
    if let Ok(time) = w.time().0 {
        lemma_staging(home, channel, process, time);
        lemma_in_state(home, channel);
        lemma_reaches_on(
            paths.state,
            paths.staging,
            within(paths.staging, staging_name(channel, process, time)),
        );
    }
}

proof fn lemma_installs_tame(w: World, home: Seq<u8>, setting: Setting, states: Seq<(Channel, Selected)>)
    requires
        absolute(home),
        orderly(w.outside, places_below(home)),
    ensures
        tame(installs_deeds(w, places_below(home), setting, states), home),
    decreases states.len(),
{
    let paths = places_below(home);
    if states.len() > 0 {
        let channel = states[0].0;
        lemma_install_tame(w, home, setting, channel);
        lemma_active_spared(home, channel);
        channel_installed_keeps(w, home, setting, channel, paths.active);
        lemma_installs_tame(
            channel_installed(w, paths, setting, channel).1,
            home,
            setting,
            states.skip(1),
        );
    }
}

proof fn lemma_update_tame(w: World, home: Seq<u8>, setting: Setting, selection: ChannelSelection)
    requires
        absolute(home),
        orderly(w.outside, places_below(home)),
    ensures
        tame(update_deeds(w, places_below(home), setting, selection), home),
{
    reveal(update_deeds);
    let paths = places_below(home);
    lemma_states_tame(w, paths, home);
    match selection {
        ChannelSelection::Channel(channel) => {
            lemma_looking_tame(w, paths, paths.installs, None, channel, home);
            lemma_install_tame(w, home, setting, channel);
        },
        ChannelSelection::All => {
            if let Ok(states) = states_of(w, paths) {
                lemma_installs_tame(w, home, setting, installed_states(states));
            }
        },
    }
}

#[verifier::rlimit(40)]
#[verifier::spinoff_prover]
proof fn lemma_operation_tame(w: World, home: Seq<u8>, setting: Setting, operation: Operation)
    requires
        absolute(home),
        orderly(w.outside, places_below(home)),
    ensures
        tame(operation_deeds(w, places_below(home), setting, operation), home),
{
    reveal(operation_deeds);
    reveal(layout_deeds);
    let paths = places_below(home);
    lemma_own(home, Channel::Stable);
    lemma_own(home, Channel::Nightly);
    lemma_directories_tame(w, layout(paths), home);
    lemma_lock_spared(home, Channel::Stable);
    layout_ensured_keeps(w, paths, paths.lock);
    let w1 = layout_ensured(w, paths).1;
    match operation {
        Operation::Install(channel) => {
            lemma_missing_tame(w1, home, setting, channel);
        },
        Operation::Use(channel) => {
            reveal(use_deeds);
            lemma_exposing_tame(w1, home);
            lemma_missing_tame(w1, home, setting, channel);
            lemma_activation_tame(missing_installed(w1, paths, setting, channel).1, home, channel);
        },
        Operation::Update(selection) => {
            lemma_update_tame(w, home, setting, selection);
        },
        Operation::Remove(selection) => {
            lemma_removal_tame(w, home, selection);
        },
        Operation::Rollback(channel) => {
            lemma_rollback_tame(w, home, channel);
        },
        Operation::Status => {
            lemma_status_tame(w, home);
        },
    }
}

proof fn lemma_missing_tame(w: World, home: Seq<u8>, setting: Setting, channel: Channel)
    requires
        absolute(home),
        orderly(w.outside, places_below(home)),
    ensures
        tame(missing_deeds(w, places_below(home), setting, channel), home),
{
    reveal(missing_deeds);
    let paths = places_below(home);
    lemma_looking_tame(w, paths, paths.installs, None, channel, home);
    lemma_install_tame(w, home, setting, channel);
}

proof fn lemma_locked_tame(w: World, home: Seq<u8>, setting: Setting, operation: Operation)
    requires
        absolute(home),
        orderly(w.outside, places_below(home)),
    ensures
        tame(locked_deeds(w, places_below(home), setting, operation), home),
{
    reveal(locked_deeds);
    reveal(recovered_deeds);
    let paths = places_below(home);
    lemma_own(home, Channel::Stable);
    lemma_lock_apart(home);
    lock_taken_keeps(w, paths, setting.process, paths.active);
    let w1 = lock_taken(w, paths, setting.process).1;
    lemma_recovery_tame(w1, home);
    lemma_lock_spared(home, Channel::Stable);
    lemma_lock_spared(home, Channel::Nightly);
    change_recovered_keeps(w1, home, paths.lock);
    lemma_operation_tame(change_recovered(w1, paths).1, home, setting, operation);
}

proof fn lemma_presence_tame(w: World, programs: Seq<Seq<char>>, home: Seq<u8>)
    ensures
        tame(presence_deeds(w, programs), home),
    decreases programs.len(),
{
    if programs.len() > 0 {
        lemma_presence_tame(program_present(w, programs[0]).1, programs.skip(1), home);
    }
}

#[verifier::rlimit(40)]
#[verifier::spinoff_prover]
proof fn lemma_command_tame(w: World, home: Seq<u8>, setting: Setting, cli: Cli)
    requires
        absolute(home),
        orderly(w.outside, places_below(home)),
    ensures
        tame(command_deeds(w, places_below(home), setting, cli), home),
{
    reveal(command_deeds);
    reveal(beginning_deeds);
    reveal(continuing_deeds);
    reveal(showing_deeds);
    let paths = places_below(home);
    lemma_own(home, Channel::Stable);
    lemma_presence_tame(w, required_programs(), home);
    lemma_active_spared(home, Channel::Stable);
    lemma_state_bytes(home, Channel::Stable);
    lemma_before_lock(w, home, paths.active);
    let w1 = programs_present(w, required_programs()).1;
    let w2 = state_root_prepared(w1, paths).1;
    match cli {
        Cli::Install(channel) => {
            lemma_locked_tame(w2, home, setting, Operation::Install(channel));
        },
        Cli::Use(channel) => {
            lemma_locked_tame(w2, home, setting, Operation::Use(channel));
        },
        Cli::Update(selection) => {
            lemma_locked_tame(w1, home, setting, Operation::Update(selection));
        },
        Cli::Remove(selection) => {
            lemma_locked_tame(w, home, setting, Operation::Remove(selection));
        },
        Cli::Rollback(channel) => {
            lemma_locked_tame(w, home, setting, Operation::Rollback(channel));
        },
        Cli::Status => {
            lemma_locked_tame(w, home, setting, Operation::Status);
            lemma_lines_tame(w, empty_status(), home);
        },
        Cli::Help => {},
    }
}

/// Nothing is changed by nv itself but what is in its state directory and in the directory of the
/// executable; and no directory is removed with all that is in it but among the releases and in the
/// directory for staging.
pub proof fn only_own_places_are_changed(
    w: World,
    host: Host,
    home: Seq<u8>,
    arguments: Seq<Seq<u8>>,
    k: int,
)
    requires
        host.home.deep_view() == Some(home),
        orderly(w.outside, places_below(home)),
        0 <= k < program_deeds(w, host, arguments).len(),
    ensures
        is_tame(program_deeds(w, host, arguments)[k], home),
{
    let cli = command_line(arguments)->Ok_0;
    let deeds = program_deeds(w, host, arguments);
    if let Ok(paths) = places_of(host.home.deep_view()) {
        lemma_command_tame(w, home, host.setting, cli);
    }
    assert(tame(deeds, home));
    reveal(tame);
}

} // verus!
