//! What the commands promise.

use vstd::prelude::*;
use vstd::utf8::*;

use crate::activation::{bin_prepared, channel_activated, exposure, link_ensured};
use crate::changes::{committed_change_is_made, concerns, lemma_byte, lemma_channel_places};
use crate::channel::{Channel, ChannelSelection};
use crate::command_frames::{
    channel_activated_keeps, channel_rolled_back_keeps, channels_updated_keeps,
    status_printed_keeps, unused_removed_keeps, use_concerns,
};
use crate::commands::{channel_rolled_back, channels_removed, removals, swap, use_ended};
use crate::disk::{at, kept, lemma_pointer_selects, lemma_stored, orderly, selection};
use crate::frames::{layout_ensured_keeps, printed_keeps, private_made_keeps};
use crate::host::{reaches, Deed, Node, World};
use crate::install::{
    channel_installed, is_offered, missing_installed, release_added, release_line, release_obtained,
    release_selected, release_taken,
};
use crate::install_frames::{
    install_concluded_keeps, missing_installed_keeps, offer_resolved_keeps, release_added_keeps,
    release_selected_keeps, staging_created_keeps, staging_removed_keeps,
};
use crate::installation::{state_of, Installed};
use crate::layout::{layout_ensured, synced};
use crate::locate::{
    below, draft_name, is_name, is_place, lemma_apart, lemma_draft, lemma_names, lemma_places,
    root_of,
};
use crate::metadata::install_name_read_back;
use crate::path::{absolute, same_path};
use crate::paths::{install_name, places_below, NVIM_LINK_TARGET, Places};
use crate::pointers::{change_committed, replacement};
use crate::programs::{offer_resolved, Offer, Setting};
use crate::release::is_release_id;
use crate::run::{operated, Operation};
use crate::separation::{
    lemma_active_spared, lemma_home_bytes, lemma_in_state, lemma_link_place, lemma_links_spared,
    lemma_nvim_spared, lemma_parting, lemma_state_bytes,
};
use crate::staging::staging_created;
use crate::transaction::names_release_of;

verus! {

/// What a channel reads as its releases, its links select, and the two are different.
pub proof fn lemma_state_selects(w: World, paths: Places, channel: Channel)
    ensures
        state_of(w, paths, channel) matches Ok(selected) ==> {
            &&& selected.current matches Some(current) ==> selection(
                w.nodes,
                paths,
                channel,
                "current"@,
            ) == Some(current.name) && names_release_of(current.name, channel)
            &&& selected.previous matches Some(previous) ==> selection(
                w.nodes,
                paths,
                channel,
                "previous"@,
            ) == Some(previous.name) && names_release_of(previous.name, channel)
            &&& selected.current is None ==> at(w.nodes, paths.link_of(channel, "current"@)) is None
            &&& selected.previous is None ==> at(
                w.nodes,
                paths.link_of(channel, "previous"@),
            ) is None
            &&& selected.previous is Some ==> selected.current is Some && selected.current->0.name
                != selected.previous->0.name
        },
{
    reveal(state_of);
    lemma_pointer_selects(w, paths, channel, "current"@);
    lemma_pointer_selects(w, paths, channel, "previous"@);
}

/// A rollback swaps the current and the previous release of a channel and changes nothing else on
/// disk.
pub proof fn rollback_swaps(w: World, home: Seq<u8>, channel: Channel)
    requires
        absolute(home),
        channel_rolled_back(w, places_below(home), channel).0 is Ok,
    ensures
        ({
            let paths = places_below(home);
            let after = channel_rolled_back(w, paths, channel).1;
            let current = selection(w.nodes, paths, channel, "current"@);
            let previous = selection(w.nodes, paths, channel, "previous"@);
            &&& current is Some && previous is Some && current != previous
            &&& selection(after.nodes, paths, channel, "current"@) == previous
            &&& selection(after.nodes, paths, channel, "previous"@) == current
            &&& forall|path: Seq<u8>|
                !concerns(paths, channel, path) ==> #[trigger] at(after.nodes, path) == at(
                    w.nodes,
                    path,
                )
        }),
{
    let paths = places_below(home);
    lemma_state_selects(w, paths, channel);
    let selected = state_of(w, paths, channel)->Ok_0;
    let change = swap(channel, selected.current->0, selected.previous->0);
    committed_change_is_made(w, home, change);
    let w1 = change_committed(w, paths, change).1;
    lemma_stored(w1, Deed::SyncDirectory(paths.directory_of(channel)));
    let w2 = synced(w1, paths.directory_of(channel)).1;
    let line = Deed::Print(
        "rolled back "@ + channel.name() + " to "@ + state_of(
            w1,
            paths,
            channel,
        )->Ok_0.current->0.record.version + " (release "@ + state_of(
            w1,
            paths,
            channel,
        )->Ok_0.current->0.record.release + ")"@,
    );
    lemma_stored(w2, line);
}

/// A second rollback takes the first one back.
pub proof fn second_rollback_swaps_forward(w: World, home: Seq<u8>, channel: Channel)
    requires
        absolute(home),
        channel_rolled_back(w, places_below(home), channel).0 is Ok,
        channel_rolled_back(
            channel_rolled_back(w, places_below(home), channel).1,
            places_below(home),
            channel,
        ).0 is Ok,
    ensures
        ({
            let paths = places_below(home);
            let once = channel_rolled_back(w, paths, channel).1;
            let twice = channel_rolled_back(once, paths, channel).1;
            &&& selection(twice.nodes, paths, channel, "current"@) == selection(
                w.nodes,
                paths,
                channel,
                "current"@,
            )
            &&& selection(twice.nodes, paths, channel, "previous"@) == selection(
                w.nodes,
                paths,
                channel,
                "previous"@,
            )
            &&& forall|path: Seq<u8>|
                !concerns(paths, channel, path) ==> #[trigger] at(twice.nodes, path) == at(
                    w.nodes,
                    path,
                )
        }),
{
    let paths = places_below(home);
    let once = channel_rolled_back(w, paths, channel).1;
    let twice = channel_rolled_back(once, paths, channel).1;
    rollback_swaps(w, home, channel);
    rollback_swaps(once, home, channel);
    assert forall|path: Seq<u8>| !concerns(paths, channel, path) implies #[trigger] at(
        twice.nodes,
        path,
    ) == at(w.nodes, path) by {
        assert(at(twice.nodes, path) == at(once.nodes, path));
    }
}

/// Whether something that nv did not make is at the place of the executable.
pub open spec fn foreign_executable(nodes: Map<Seq<u8>, Node>, paths: Places) -> bool {
    match at(nodes, paths.nvim_link) {
        None => false,
        Some(Node::Link { target }) => !same_path(target, encode_utf8(NVIM_LINK_TARGET@)),
        Some(_) => true,
    }
}

proof fn lemma_foreign_refused(w: World, paths: Places)
    requires
        foreign_executable(w.nodes, paths),
    ensures
        link_ensured(w, paths) == (link_ensured(w, paths).0, w),
        link_ensured(w, paths).0 is Err,
        exposure(w, paths) is Err,
{
    reveal(World::sight);
    reveal(World::target);
}

/// The executable is none of the places that are touched when a directory for it is made.
pub proof fn lemma_nvim_not_above(home: Seq<u8>)
    requires
        absolute(home),
    ensures
        !reaches(places_below(home).nvim_link, places_below(home).local_bin),
        !reaches(places_below(home).nvim_link, places_below(home).state),
        places_below(home).nvim_link != places_below(home).active,
        places_below(home).nvim_link != places_below(home).lock,
{
    let paths = places_below(home);
    lemma_places(home);
    lemma_nvim_spared(home, Channel::Stable);
    assert(paths.local_bin.len() < paths.nvim_link.len());
    lemma_parting(home, paths.state);
    assert(paths.active.take(paths.state.len() as int) =~= paths.state);
    lemma_parting(home, paths.active);
    assert(paths.lock.take(paths.state.len() as int) =~= paths.state);
    lemma_parting(home, paths.lock);
}

/// To put a channel in use is refused where something that nv did not make is at the place of the
/// executable, and what is there is kept.
pub proof fn use_refuses_foreign_executable(w: World, home: Seq<u8>, channel: Channel)
    requires
        absolute(home),
        orderly(w.outside, places_below(home)),
        foreign_executable(w.nodes, places_below(home)),
    ensures
        channel_activated(w, places_below(home), channel).0 is Err,
        kept(
            w,
            channel_activated(w, places_below(home), channel).1,
            places_below(home).nvim_link,
        ),
{
    let paths = places_below(home);
    lemma_nvim_not_above(home);
    private_made_keeps(w, paths, paths.local_bin, paths.nvim_link);
    lemma_foreign_refused(bin_prepared(w, paths).1, paths);
}

proof fn lemma_removal_spares_foreign(w: World, home: Seq<u8>, selected: ChannelSelection)
    requires
        absolute(home),
        orderly(w.outside, places_below(home)),
        foreign_executable(w.nodes, places_below(home)),
    ensures
        kept(w, channels_removed(w, places_below(home), selected).1, places_below(home).nvim_link),
{
    let paths = places_below(home);
    let link = paths.nvim_link;
    lemma_nvim_spared(home, Channel::Stable);
    lemma_names();
    lemma_foreign_refused(w, paths);
    if let Ok(states) = removals(w, paths, selected) {
        let (ended, w1) = use_ended(w, paths, states);
        assert(w1 == w);
        assert forall|k: int| 0 <= k < states.len() implies link != paths.link_of(
            (#[trigger] states[k]).0,
            "current"@,
        ) && link != paths.link_of(states[k].0, "previous"@) by {
            lemma_nvim_is_no_link(home, states[k].0);
        }
        unused_removed_keeps(w, home, states, link);
    }
}

proof fn lemma_nvim_is_no_link(home: Seq<u8>, channel: Channel)
    requires
        absolute(home),
    ensures
        places_below(home).nvim_link != places_below(home).link_of(channel, "current"@),
        places_below(home).nvim_link != places_below(home).link_of(channel, "previous"@),
{
    lemma_names();
    lemma_nvim_spared(home, channel);
    lemma_channel_places(home, channel);
}

/// No operation changes what nv did not make at the place of the executable.
pub proof fn foreign_executable_is_kept(
    w: World,
    home: Seq<u8>,
    setting: Setting,
    operation: Operation,
)
    requires
        absolute(home),
        orderly(w.outside, places_below(home)),
        foreign_executable(w.nodes, places_below(home)),
    ensures
        kept(
            w,
            operated(w, places_below(home), setting, operation).1,
            places_below(home).nvim_link,
        ),
        operation is Use ==> operated(w, places_below(home), setting, operation).0 is Err,
{
    let paths = places_below(home);
    let link = paths.nvim_link;
    lemma_nvim_spared(home, Channel::Stable);
    lemma_nvim_spared(home, Channel::Nightly);
    layout_ensured_keeps(w, paths, link);
    let w1 = layout_ensured(w, paths).1;
    match operation {
        Operation::Install(channel) => {
            missing_installed_keeps(w1, home, setting, channel, link);
        },
        Operation::Use(channel) => {
            missing_installed_keeps(w1, home, setting, channel, link);
            let w2 = missing_installed(w1, paths, setting, channel).1;
            use_refuses_foreign_executable(w2, home, channel);
        },
        Operation::Update(selected) => {
            channels_updated_keeps(w, home, setting, selected, link);
        },
        Operation::Remove(selected) => {
            lemma_removal_spares_foreign(w, home, selected);
        },
        Operation::Rollback(channel) => {
            channel_rolled_back_keeps(w, home, channel, link);
        },
        Operation::Status => {
            status_printed_keeps(w, paths, link);
        },
    }
}

/// The installation of a channel changes neither the channel in use nor the executable.
pub proof fn install_keeps_channel_in_use(
    w: World,
    home: Seq<u8>,
    setting: Setting,
    channel: Channel,
)
    requires
        absolute(home),
        orderly(w.outside, places_below(home)),
    ensures
        ({
            let paths = places_below(home);
            let after = operated(w, paths, setting, Operation::Install(channel)).1;
            kept(w, after, paths.active) && kept(w, after, paths.nvim_link)
        }),
{
    let paths = places_below(home);
    let w1 = layout_ensured(w, paths).1;
    lemma_active_spared(home, channel);
    lemma_nvim_spared(home, channel);
    layout_ensured_keeps(w, paths, paths.active);
    layout_ensured_keeps(w, paths, paths.nvim_link);
    missing_installed_keeps(w1, home, setting, channel, paths.active);
    missing_installed_keeps(w1, home, setting, channel, paths.nvim_link);
}

/// A link of a channel is none of the places that are touched when a channel is put in use.
pub proof fn lemma_link_unused(home: Seq<u8>, channel: Channel, name: Seq<char>)
    requires
        absolute(home),
        is_name(name),
    ensures
        !use_concerns(places_below(home), places_below(home).link_of(channel, name)),
{
    let paths = places_below(home);
    let n = paths.state.len() as int + 1;
    let link = below(paths.directory_of(channel), name);
    lemma_link_place(home, channel, name);
    lemma_state_bytes(home, channel);
    lemma_names();
    lemma_places(home);
    lemma_draft(paths.state, "active"@);
    lemma_draft(paths.local_bin, "nvim"@);
    reveal_strlit(".");
    lemma_byte(paths.state, draft_name("active"@));
    lemma_apart(paths.active, link, n);
    lemma_apart(below(paths.state, draft_name("active"@)), link, n);
    lemma_in_state(home, channel);
    assert(reaches(paths.state, link));
    lemma_home_bytes(home);
    let m = root_of(home).len() as int + 7;
    lemma_apart(paths.nvim_link, link, m);
    lemma_apart(below(paths.local_bin, draft_name("nvim"@)), link, m);
    lemma_apart(link, paths.local_bin, m);
}

/// Whether a release of a channel is installed: there is a link that selects it.
pub open spec fn is_installed(nodes: Map<Seq<u8>, Node>, paths: Places, channel: Channel) -> bool {
    at(nodes, paths.link_of(channel, "current"@)) is Some
}

proof fn lemma_missing_spares_installed(
    w: World,
    home: Seq<u8>,
    setting: Setting,
    channel: Channel,
    other: Channel,
    which: Seq<char>,
)
    requires
        absolute(home),
        orderly(w.outside, places_below(home)),
        is_installed(w.nodes, places_below(home), other),
        is_name(which),
    ensures
        kept(
            w,
            missing_installed(w, places_below(home), setting, channel).1,
            places_below(home).link_of(other, which),
        ),
{
    let paths = places_below(home);
    let link = paths.link_of(other, which);
    if other != channel {
        lemma_links_spared(home, channel, other, which);
        missing_installed_keeps(w, home, setting, channel, link);
    } else {
        lemma_state_selects(w, paths, channel);
        if let Ok(selected) = state_of(w, paths, channel) {
            let record = selected.current->0.record;
            printed_keeps(
                w,
                paths,
                release_line(channel, " is already installed: "@, record.version, record.release),
                link,
            );
        }
    }
}

/// Neither the installation nor the use of a channel replaces a release that is installed: the
/// links of every channel with a release stay as they are.
pub proof fn installed_release_is_kept(
    w: World,
    home: Seq<u8>,
    setting: Setting,
    operation: Operation,
    channel: Channel,
    which: Seq<char>,
)
    requires
        absolute(home),
        orderly(w.outside, places_below(home)),
        is_installed(w.nodes, places_below(home), channel),
        operation is Install || operation is Use,
        which == "current"@ || which == "previous"@,
    ensures
        kept(
            w,
            operated(w, places_below(home), setting, operation).1,
            places_below(home).link_of(channel, which),
        ),
{
    let paths = places_below(home);
    let link = paths.link_of(channel, which);
    let w1 = layout_ensured(w, paths).1;
    lemma_names();
    lemma_link_place(home, channel, which);
    lemma_link_place(home, channel, "current"@);
    layout_ensured_keeps(w, paths, link);
    layout_ensured_keeps(w, paths, paths.link_of(channel, "current"@));
    match operation {
        Operation::Install(wanted) => {
            lemma_missing_spares_installed(w1, home, setting, wanted, channel, which);
        },
        Operation::Use(wanted) => {
            lemma_missing_spares_installed(w1, home, setting, wanted, channel, which);
            let w2 = missing_installed(w1, paths, setting, wanted).1;
            lemma_link_unused(home, channel, which);
            channel_activated_keeps(w2, home, wanted, link);
        },
        _ => {},
    }
}

/// Whether a link of a channel selects the same release in two worlds.
pub proof fn lemma_selection_kept(
    before: World,
    after: World,
    paths: Places,
    channel: Channel,
    which: Seq<char>,
)
    requires
        kept(before, after, paths.link_of(channel, which)),
    ensures
        selection(after.nodes, paths, channel, which) == selection(
            before.nodes,
            paths,
            channel,
            which,
        ),
{
}

/// A release that was obtained is the offered one.
proof fn lemma_obtained(
    w: World,
    home: Seq<u8>,
    setting: Setting,
    channel: Channel,
    offer: Offer,
    staging: Seq<u8>,
)
    requires
        absolute(home),
        is_release_id(offer.id),
    ensures
        release_obtained(w, places_below(home), setting, channel, offer, staging).0 matches Ok(
            record,
        ) ==> record.release == offer.id && names_release_of(
            install_name(channel, record.release),
            channel,
        ),
{
    reveal(release_obtained);
    reveal(release_added);
    install_name_read_back(channel, offer.id);
}

/// What an installation that has succeeded comes to, if it had to change the links of the channel.
pub open spec fn renewed(before: World, after: World, paths: Places, channel: Channel) -> bool {
    let had = selection(before.nodes, paths, channel, "current"@);
    let has = selection(after.nodes, paths, channel, "current"@);
    &&& has matches Some(name) && names_release_of(name, channel)
    &&& has != had
    &&& had is Some ==> selection(after.nodes, paths, channel, "previous"@) == had
    &&& had is None ==> at(after.nodes, paths.link_of(channel, "previous"@)) is None
}

/// What an installation that has succeeded comes to, if the channel selected the release already.
pub open spec fn unchanged(before: World, after: World, paths: Places, channel: Channel) -> bool {
    &&& selection(before.nodes, paths, channel, "current"@) is Some
    &&& kept(before, after, paths.link_of(channel, "current"@))
    &&& kept(before, after, paths.link_of(channel, "previous"@))
}

#[verifier::rlimit(60)]
#[verifier::spinoff_prover]
pub proof fn lemma_selected(
    w: World,
    home: Seq<u8>,
    setting: Setting,
    channel: Channel,
    had: Option<Installed>,
    staging: Seq<u8>,
)
    requires
        absolute(home),
        orderly(w.outside, places_below(home)),
        reaches(places_below(home).staging, staging),
        is_place(staging),
        had matches Some(installed) ==> names_release_of(installed.name, channel),
    ensures
        ({
            let paths = places_below(home);
            let (chosen, after) = release_selected(w, paths, setting, channel, had, staging);
            let current = paths.link_of(channel, "current"@);
            let previous = paths.link_of(channel, "previous"@);
            &&& after.outside == w.outside
            &&& chosen matches Ok(None) ==> had is Some && kept(w, after, current) && kept(
                w,
                after,
                previous,
            )
            &&& chosen matches Ok(Some(record)) ==> {
                let name = install_name(channel, record.release);
                &&& names_release_of(name, channel)
                &&& selection(after.nodes, paths, channel, "current"@) == Some(name)
                &&& match had {
                    Some(had) => selection(after.nodes, paths, channel, "previous"@) == Some(
                        had.name,
                    ) && had.name != name,
                    None => at(after.nodes, previous) == at(w.nodes, previous),
                }
            }
        }),
{
    reveal(release_selected);
    reveal(release_taken);
    reveal(release_obtained);
    let paths = places_below(home);
    let current = paths.link_of(channel, "current"@);
    let previous = paths.link_of(channel, "previous"@);
    lemma_names();
    lemma_link_place(home, channel, "current"@);
    lemma_link_place(home, channel, "previous"@);
    lemma_active_spared(home, channel);
    release_selected_keeps(w, home, setting, channel, had, staging, paths.active);
    offer_resolved_keeps(w, paths, setting, channel, staging, current);
    offer_resolved_keeps(w, paths, setting, channel, staging, previous);
    let (resolved, w1) = offer_resolved(w, setting, channel, staging);
    if let Ok(offer) = resolved {
        if is_offered(had, offer) {
            let record = had->0.record;
            let line = release_line(
                channel,
                " is already current: "@,
                record.version,
                record.release,
            );
            printed_keeps(w1, paths, line, current);
            printed_keeps(w1, paths, line, previous);
        } else {
            release_added_keeps(w1, home, setting, channel, offer, staging, previous);
            let (obtained, w2) = release_obtained(w1, paths, setting, channel, offer, staging);
            lemma_obtained(w1, home, setting, channel, offer, staging);
            if let Ok(record) = obtained {
                let change = replacement(channel, had, record);
                if change_committed(w2, paths, change).0 is Ok {
                    committed_change_is_made(w2, home, change);
                }
            }
        }
    }
}

/// After an installation or an update that has succeeded, the channel either selects what it
/// selected before, or it selects another release as the current one and keeps the one that it had
/// as the previous one.
pub proof fn update_retains_previous(w: World, home: Seq<u8>, setting: Setting, channel: Channel)
    requires
        absolute(home),
        orderly(w.outside, places_below(home)),
        channel_installed(w, places_below(home), setting, channel).0 is Ok,
    ensures
        ({
            let paths = places_below(home);
            let after = channel_installed(w, paths, setting, channel).1;
            unchanged(w, after, paths, channel) || renewed(w, after, paths, channel)
        }),
{
    let paths = places_below(home);
    let after = channel_installed(w, paths, setting, channel).1;
    let current = paths.link_of(channel, "current"@);
    let previous = paths.link_of(channel, "previous"@);
    lemma_names();
    lemma_link_place(home, channel, "current"@);
    lemma_link_place(home, channel, "previous"@);
    lemma_state_selects(w, paths, channel);
    let had = state_of(w, paths, channel)->Ok_0.current;
    staging_created_keeps(w, home, channel, setting.process, current);
    staging_created_keeps(w, home, channel, setting.process, previous);
    let (created, w1) = staging_created(w, paths, channel, setting.process);
    let staging = created->Ok_0;
    lemma_selected(w1, home, setting, channel, had, staging);
    let (chosen, w2) = release_selected(w1, paths, setting, channel, had, staging);
    match chosen->Ok_0 {
        None => {
            staging_removed_keeps(w2, paths, staging, current);
            staging_removed_keeps(w2, paths, staging, previous);
        },
        Some(record) => {
            install_concluded_keeps(w2, home, channel, record, staging, current);
            install_concluded_keeps(w2, home, channel, record, staging, previous);
            lemma_selection_kept(w2, after, paths, channel, "current"@);
            lemma_selection_kept(w2, after, paths, channel, "previous"@);
        },
    }
}

/// After the installation or the use of a channel has succeeded, the channel selects a release.
pub proof fn installed_channel_selects_release(
    w: World,
    home: Seq<u8>,
    setting: Setting,
    operation: Operation,
    channel: Channel,
)
    requires
        absolute(home),
        orderly(w.outside, places_below(home)),
        operation == Operation::Install(channel) || operation == Operation::Use(channel),
        operated(w, places_below(home), setting, operation).0 is Ok,
    ensures
        selection(
            operated(w, places_below(home), setting, operation).1.nodes,
            places_below(home),
            channel,
            "current"@,
        ) matches Some(name) && names_release_of(name, channel),
{
    let paths = places_below(home);
    let link = paths.link_of(channel, "current"@);
    lemma_names();
    lemma_link_place(home, channel, "current"@);
    layout_ensured_keeps(w, paths, link);
    let w1 = layout_ensured(w, paths).1;
    lemma_state_selects(w1, paths, channel);
    let selected = state_of(w1, paths, channel)->Ok_0;
    match selected.current {
        Some(current) => {
            let line = release_line(
                channel,
                " is already installed: "@,
                current.record.version,
                current.record.release,
            );
            printed_keeps(w1, paths, line, link);
        },
        None => {
            update_retains_previous(w1, home, setting, channel);
            lemma_active_spared(home, channel);
            missing_installed_keeps(w1, home, setting, channel, paths.active);
        },
    }
    if operation is Use {
        let w2 = missing_installed(w1, paths, setting, channel).1;
        lemma_link_unused(home, channel, "current"@);
        channel_activated_keeps(w2, home, channel, link);
    }
}

} // verus!
