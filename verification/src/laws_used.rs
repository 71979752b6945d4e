//! What the use of a channel promises on a calm machine.

use vstd::prelude::*;
use vstd::utf8::encode_utf8;

use crate::activation::{
    active_channel, active_target, bin_prepared, channel_activated, destination, nvim_linked,
};
use crate::calm::{
    calm, lemma_calm_attempt, lemma_calm_link, lemma_calm_sight, lemma_calm_target, release_kept,
    slot,
};
use crate::changes::{lemma_channel_places, lemma_link_replaced};
use crate::channel::Channel;
use crate::commands::nothing_selected;
use crate::disk::{at, kept, lemma_done, lemma_stored, orderly};
use crate::frames::lemma_reaches_on;
use crate::host::{reaches, Deed, Node, World};
use crate::install::{missing_installed, record_of};
use crate::install_frames::missing_installed_keeps;
use crate::installation::{state_of, Installed, Selected};
use crate::laws::lemma_link_unused;
use crate::laws_cleanup::lemma_selected_path;
use crate::laws_installed::{installable, offered_release_is_installed, provided};
use crate::laws_removed::linked;
use crate::laws_success::vacant;
use crate::laws_use::{activated_channel_is_in_use, in_use};
use crate::layout::{printed, synced};
use crate::locate::{
    ascii, below, draft_name, lemma_apart, lemma_ascii, lemma_draft, lemma_draft_name,
    lemma_name_piece, lemma_names, lemma_pieces_join, lemma_places, lemma_sibling,
    lemma_siblings_apart, lemma_within, root_of,
};
use crate::path::{absolute, pieces, same_path, Piece};
use crate::paths::{install_name, places_below, within, NVIM_LINK_TARGET, Places};
use crate::pointers::{link_replaced, transaction_draft};
use crate::programs::{offer_resolved, Offer, Setting};
use crate::recovery::lemma_state_same;
use crate::run::channel_used;
use crate::separation::{
    lemma_home_bytes, lemma_in_state, lemma_link_place, lemma_release_parts, lemma_state_bytes,
    spared,
};
use crate::staging::{staging_created, staging_name};

verus! {

/// Whether nothing on disk prevents that the executable is exposed.
pub open spec fn exposable(w: World, paths: Places) -> bool {
    let target = encode_utf8(NVIM_LINK_TARGET@);
    &&& match at(w.nodes, paths.local_bin) {
        Some(Node::Directory { mode }) => mode & 0o022 == 0,
        Some(_) => false,
        None => w.permits(Deed::MakePrivateDirectories(paths.local_bin)),
    }
    &&& match at(w.nodes, paths.nvim_link) {
        Some(Node::Link { target: found }) => same_path(found, target),
        Some(_) => false,
        None => slot(w.nodes, paths.local_bin, "nvim"@, target),
    }
}

/// The directory of executables is made on a calm machine, and the place of the executable stays.
proof fn lemma_bin_made(w: World, home: Seq<u8>)
    requires
        absolute(home),
        calm(w.outside),
        exposable(w, places_below(home)),
    ensures
        ({
            let paths = places_below(home);
            let (prepared, after) = bin_prepared(w, paths);
            &&& prepared is Ok
            &&& after.outside == w.outside
            &&& at(after.nodes, paths.nvim_link) == at(w.nodes, paths.nvim_link)
            &&& at(after.nodes, paths.nvim_link) is None ==> slot(
                after.nodes,
                paths.local_bin,
                "nvim"@,
                encode_utf8(NVIM_LINK_TARGET@),
            )
            &&& forall|path: Seq<u8>|
                reaches(paths.state, path) ==> #[trigger] at(after.nodes, path) == at(w.nodes, path)
        }),
{
    let paths = places_below(home);
    let bin = paths.local_bin;
    let deed = Deed::MakePrivateDirectories(bin);
    let n = root_of(home).len() as int + 7;
    let after = bin_prepared(w, paths).1;
    lemma_places(home);
    lemma_names();
    lemma_draft(bin, "nvim"@);
    lemma_home_bytes(home);
    lemma_calm_sight(w, bin);
    if at(w.nodes, bin) is None {
        lemma_calm_attempt(w, deed);
        lemma_done(w, deed, paths.nvim_link);
        lemma_done(w, deed, below(bin, draft_name("nvim"@)));
        assert forall|path: Seq<u8>| reaches(paths.state, path) implies #[trigger] at(
            after.nodes,
            path,
        ) == at(w.nodes, path) by {
            lemma_apart(path, bin, n);
            lemma_done(w, deed, path);
        }
        if at(w.nodes, paths.nvim_link) is None {
            assert forall|inner: Seq<u8>| #[trigger]
                after.nodes.contains_key(inner) && reaches(below(bin, "nvim"@), inner) implies inner
                == below(bin, "nvim"@) by {
                lemma_done(w, deed, inner);
                assert(at(after.nodes, inner) == at(w.nodes, inner));
            }
        }
    }
}

/// On a calm machine the executable is exposed if nothing on disk prevents it, and the state stays
/// as it is.
proof fn lemma_exposed_calmly(w: World, home: Seq<u8>)
    requires
        absolute(home),
        calm(w.outside),
        exposable(w, places_below(home)),
    ensures
        ({
            let paths = places_below(home);
            let (linked, after) = nvim_linked(w, paths);
            &&& linked is Ok
            &&& after.outside == w.outside
            &&& forall|path: Seq<u8>|
                reaches(paths.state, path) ==> #[trigger] at(after.nodes, path) == at(w.nodes, path)
        }),
{
    let paths = places_below(home);
    let target = encode_utf8(NVIM_LINK_TARGET@);
    let n = root_of(home).len() as int + 7;
    lemma_places(home);
    lemma_names();
    lemma_home_bytes(home);
    lemma_draft(paths.local_bin, "nvim"@);
    lemma_bin_made(w, home);
    let w1 = bin_prepared(w, paths).1;
    let after = nvim_linked(w, paths).1;
    lemma_calm_sight(w1, paths.nvim_link);
    match at(w1.nodes, paths.nvim_link) {
        Some(node) => {
            lemma_calm_target(w1, paths.nvim_link, node->target);
        },
        None => {
            lemma_calm_link(w1, paths.local_bin, "nvim"@, target);
            lemma_link_replaced(w1, paths.local_bin, "nvim"@, target, paths.state);
            let w2 = link_replaced(w1, paths.nvim_link, target).1;
            lemma_calm_attempt(w2, Deed::SyncDirectory(paths.local_bin));
            lemma_stored(w2, Deed::SyncDirectory(paths.local_bin));
            assert forall|path: Seq<u8>| reaches(paths.state, path) implies #[trigger] at(
                after.nodes,
                path,
            ) == at(w.nodes, path) by {
                lemma_apart(paths.nvim_link, path, n);
                lemma_apart(below(paths.local_bin, draft_name("nvim"@)), path, n);
                lemma_link_replaced(w1, paths.local_bin, "nvim"@, target, path);
                assert(at(w1.nodes, path) == at(w.nodes, path));
            }
        },
    }
}

/// The links of the channel in use point to different places for different channels.
pub proof fn lemma_targets_apart()
    ensures
        !same_path(active_target(Channel::Stable), active_target(Channel::Nightly)),
{
    lemma_target_pieces(Channel::Stable);
    lemma_target_pieces(Channel::Nightly);
    reveal_strlit("stable");
    reveal_strlit("nightly");
    assert(ascii("stable"@).len() == 6);
    assert(ascii("nightly"@).len() == 7);
    assert(pieces(active_target(Channel::Stable))[1] == Piece::Normal(ascii("stable"@)));
    assert(pieces(active_target(Channel::Nightly))[1] == Piece::Normal(ascii("nightly"@)));
}

pub proof fn lemma_target_pieces(channel: Channel)
    ensures
        pieces(active_target(channel)) == seq![
            Piece::Normal(ascii("channels"@)),
            Piece::Normal(ascii(channel.name())),
            Piece::Normal(ascii("current"@)),
        ],
{
    let name = channel.name();
    lemma_names();
    reveal_strlit("channels");
    reveal_strlit("stable");
    reveal_strlit("nightly");
    reveal_strlit("current");
    lemma_ascii("channels"@);
    lemma_ascii(name);
    lemma_ascii("current"@);
    let base = ascii("channels"@);
    assert(base[0] == 'c' as u8 && base.last() == 's' as u8);
    lemma_within(base, name);
    let middle = below(base, name);
    lemma_within(middle, "current"@);
    let target = below(middle, "current"@);
    assert(target == active_target(channel));
    assert(target[0] == base[0]);
    lemma_pieces_join(base, ascii(name));
    lemma_pieces_join(middle, ascii("current"@));
    lemma_name_piece("channels"@);
    lemma_name_piece(name);
    lemma_name_piece("current"@);
    assert(pieces(target) =~= seq![
        Piece::Normal(ascii("channels"@)),
        Piece::Normal(ascii(name)),
        Piece::Normal(ascii("current"@)),
    ]);
}

/// What is read of the channel in use on a calm machine if its link is as nv makes it.
proof fn lemma_active_read(w: World, paths: Places, channel: Channel)
    requires
        calm(w.outside),
        at(w.nodes, paths.active) matches Some(Node::Link { target }) && same_path(
            target,
            active_target(channel),
        ),
        state_of(w, paths, channel) matches Ok(selected) && selected.current is Some,
    ensures
        active_channel(w, paths) == Ok::<Option<Channel>, Seq<char>>(Some(channel)),
{
    lemma_calm_sight(w, paths.active);
    lemma_calm_target(w, paths.active, w.nodes[paths.active]->target);
    lemma_targets_apart();
}

/// The replacement of the link of the channel in use leaves what a channel selects as it is.
proof fn lemma_selecting_keeps_state(w: World, home: Seq<u8>, channel: Channel, target: Seq<u8>)
    requires
        absolute(home),
        calm(w.outside),
        link_replaced(w, places_below(home).active, target).0 is Ok,
        state_of(w, places_below(home), channel) is Ok,
    ensures
        state_of(
            link_replaced(w, places_below(home).active, target).1,
            places_below(home),
            channel,
        ) == state_of(w, places_below(home), channel),
{
    let paths = places_below(home);
    let after = link_replaced(w, paths.active, target).1;
    let selected = state_of(w, paths, channel)->Ok_0;
    lemma_places(home);
    lemma_names();
    lemma_link_unused(home, channel, "current"@);
    lemma_link_unused(home, channel, "previous"@);
    lemma_link_replaced(w, paths.state, "active"@, target, paths.link_of(channel, "current"@));
    lemma_link_replaced(w, paths.state, "active"@, target, paths.link_of(channel, "previous"@));
    if let Some(installed) = selected.current {
        lemma_selecting_keeps_release(w, home, channel, target, installed);
    }
    if let Some(installed) = selected.previous {
        lemma_selecting_keeps_release(w, home, channel, target, installed);
    }
    lemma_state_same(w, after, paths, channel);
}

proof fn lemma_selecting_keeps_release(
    w: World,
    home: Seq<u8>,
    channel: Channel,
    target: Seq<u8>,
    installed: Installed,
)
    requires
        absolute(home),
        link_replaced(w, places_below(home).active, target).0 is Ok,
        state_of(w, places_below(home), channel) matches Ok(selected) && (selected.current == Some(
            installed,
        ) || selected.previous == Some(installed)),
    ensures
        release_kept(
            w,
            link_replaced(w, places_below(home).active, target).1,
            places_below(home),
            installed.name,
        ),
{
    let paths = places_below(home);
    lemma_selected_path(w, paths, channel, installed);
    lemma_release_parts(home, channel, installed.name);
    lemma_selecting_keeps_installs(w, home, target, installed.path);
    lemma_selecting_keeps_installs(w, home, target, within(installed.path, "bin/nvim"@));
    lemma_selecting_keeps_installs(w, home, target, within(installed.path, ".nv-metadata"@));
}

proof fn lemma_selecting_keeps_installs(w: World, home: Seq<u8>, target: Seq<u8>, path: Seq<u8>)
    requires
        absolute(home),
        link_replaced(w, places_below(home).active, target).0 is Ok,
        reaches(places_below(home).installs, path),
    ensures
        kept(w, link_replaced(w, places_below(home).active, target).1, path),
{
    let paths = places_below(home);
    let n = paths.state.len() as int + 1;
    let draft = below(paths.state, draft_name("active"@));
    lemma_places(home);
    lemma_names();
    lemma_state_bytes(home, Channel::Stable);
    lemma_draft_name("active"@);
    assert(draft[n] == ascii(draft_name("active"@))[0]);
    assert(path.take(paths.installs.len() as int)[n] == paths.installs[n]);
    lemma_apart(paths.active, path, n);
    lemma_apart(draft, path, n);
    lemma_link_replaced(w, paths.state, "active"@, target, path);
}

/// On a calm machine a channel with a release is put in use if nothing on disk prevents it.
pub proof fn installed_channel_is_put_in_use(w: World, home: Seq<u8>, channel: Channel)
    requires
        absolute(home),
        calm(w.outside),
        state_of(w, places_below(home), channel) matches Ok(selected) && selected.current is Some,
        active_channel(w, places_below(home)) is Ok,
        exposable(w, places_below(home)),
        slot(w.nodes, places_below(home).state, "active"@, active_target(channel)),
    ensures
        ({
            let (done, after) = channel_activated(w, places_below(home), channel);
            &&& done is Ok
            &&& after.outside == w.outside
            &&& in_use(after.nodes, places_below(home), channel)
            &&& state_of(after, places_below(home), channel) == state_of(
                w,
                places_below(home),
                channel,
            )
        }),
{
    let paths = places_below(home);
    let target = active_target(channel);
    let current = state_of(w, paths, channel)->Ok_0.current->0;
    let line = "using "@ + channel.name() + " "@ + current.record.version + " (release "@
        + current.record.release + ")"@;
    lemma_places(home);
    lemma_names();
    lemma_in_state(home, channel);
    lemma_state_bytes(home, channel);
    lemma_exposed_calmly(w, home);
    let w1 = nvim_linked(w, paths).1;
    lemma_state_after_exposure(w, w1, home, channel);
    lemma_slot_after_exposure(w, w1, home, target);
    lemma_calm_link(w1, paths.state, "active"@, target);
    lemma_link_replaced(w1, paths.state, "active"@, target, paths.active);
    let w2 = link_replaced(w1, paths.active, target).1;
    lemma_selecting_keeps_state(w1, home, channel, target);
    lemma_active_read(w2, paths, channel);
    lemma_calm_attempt(w2, Deed::SyncDirectory(paths.state));
    lemma_stored(w2, Deed::SyncDirectory(paths.state));
    let w3 = synced(w2, paths.state).1;
    lemma_calm_attempt(w3, Deed::Print(line));
    lemma_stored(w3, Deed::Print(line));
    lemma_state_same(w2, printed(w3, line).1, paths, channel);
    activated_channel_is_in_use(w, home, channel);
}

proof fn lemma_state_after_exposure(w: World, after: World, home: Seq<u8>, channel: Channel)
    requires
        absolute(home),
        calm(w.outside),
        after.outside == w.outside,
        state_of(w, places_below(home), channel) is Ok,
        forall|path: Seq<u8>|
            reaches(places_below(home).state, path) ==> #[trigger] at(after.nodes, path) == at(
                w.nodes,
                path,
            ),
    ensures
        state_of(after, places_below(home), channel) == state_of(w, places_below(home), channel),
{
    let paths = places_below(home);
    let selected = state_of(w, paths, channel)->Ok_0;
    lemma_names();
    lemma_in_state(home, channel);
    lemma_link_place(home, channel, "current"@);
    lemma_link_place(home, channel, "previous"@);
    assert(reaches(paths.state, below(paths.directory_of(channel), "current"@)));
    assert(reaches(paths.state, below(paths.directory_of(channel), "previous"@)));
    if let Some(installed) = selected.current {
        lemma_release_in_state(w, home, channel, installed);
    }
    if let Some(installed) = selected.previous {
        lemma_release_in_state(w, home, channel, installed);
    }
    lemma_state_same(w, after, paths, channel);
}

proof fn lemma_release_in_state(w: World, home: Seq<u8>, channel: Channel, installed: Installed)
    requires
        absolute(home),
        state_of(w, places_below(home), channel) matches Ok(selected) && (selected.current == Some(
            installed,
        ) || selected.previous == Some(installed)),
    ensures
        ({
            let paths = places_below(home);
            let path = within(paths.installs, installed.name);
            &&& reaches(paths.state, path)
            &&& reaches(paths.state, within(path, "bin/nvim"@))
            &&& reaches(paths.state, within(path, ".nv-metadata"@))
        }),
{
    let paths = places_below(home);
    lemma_selected_path(w, paths, channel, installed);
    lemma_release_parts(home, channel, installed.name);
    lemma_in_state(home, channel);
    let path = within(paths.installs, installed.name);
    lemma_reaches_on(paths.state, paths.installs, path);
    lemma_reaches_on(paths.state, paths.installs, within(path, "bin/nvim"@));
    lemma_reaches_on(paths.state, paths.installs, within(path, ".nv-metadata"@));
}

proof fn lemma_slot_after_exposure(w: World, after: World, home: Seq<u8>, target: Seq<u8>)
    requires
        absolute(home),
        slot(w.nodes, places_below(home).state, "active"@, target),
        forall|path: Seq<u8>|
            reaches(places_below(home).state, path) ==> #[trigger] at(after.nodes, path) == at(
                w.nodes,
                path,
            ),
    ensures
        slot(after.nodes, places_below(home).state, "active"@, target),
{
    let paths = places_below(home);
    let link = below(paths.state, "active"@);
    let draft = below(paths.state, draft_name("active"@));
    assert(link.take(paths.state.len() as int) =~= paths.state);
    assert(draft.take(paths.state.len() as int) =~= paths.state);
    assert(reaches(paths.state, link) && reaches(paths.state, draft));
    assert(at(after.nodes, link) == at(w.nodes, link));
    assert(at(after.nodes, draft) == at(w.nodes, draft));
    assert forall|inner: Seq<u8>| #[trigger]
        after.nodes.contains_key(inner) && reaches(link, inner) implies inner == link by {
        lemma_reaches_on(paths.state, link, inner);
        assert(at(after.nodes, inner) == at(w.nodes, inner));
        assert(w.nodes.contains_key(inner));
    }
}

/// The link of the channel in use and its draft are spared when a release is installed.
proof fn lemma_active_tree_spared(home: Seq<u8>, channel: Channel, path: Seq<u8>)
    requires
        absolute(home),
        reaches(places_below(home).active, path) || path == below(
            places_below(home).state,
            draft_name("active"@),
        ),
    ensures
        spared(places_below(home), channel, path),
{
    let paths = places_below(home);
    let directory = paths.directory_of(channel);
    let n = paths.state.len() as int + 1;
    let draft = below(paths.state, draft_name("active"@));
    let note_draft = ".pointer.transaction.nv-new"@;
    lemma_places(home);
    lemma_names();
    lemma_draft_name("active"@);
    lemma_draft(paths.state, "active"@);
    lemma_state_bytes(home, channel);
    lemma_channel_places(home, channel);
    reveal_strlit(".");
    reveal_strlit("active");
    reveal_strlit(".nv-new");
    reveal_strlit(".pointer.transaction.nv-new");
    assert(draft[n] == ascii(draft_name("active"@))[0]);
    assert(draft.take(paths.state.len() as int) =~= paths.state);
    assert(draft_name("active"@)[1] == 'a');
    assert(note_draft[1] == 'p');
    lemma_siblings_apart(paths.state, draft_name("active"@), note_draft);
    lemma_sibling(paths.state, "pointer.transaction"@, note_draft);
    if reaches(paths.active, path) {
        lemma_reaches_on(paths.state, paths.active, path);
        assert(path.take(paths.active.len() as int)[n] == paths.active[n]);
        lemma_apart(transaction_draft(paths), path, n);
    }
    lemma_apart(paths.staging, path, n);
    lemma_apart(paths.installs, path, n);
    lemma_apart(paths.transaction, path, n);
    lemma_apart(below(directory, "current"@), path, n);
    lemma_apart(below(directory, "previous"@), path, n);
    lemma_apart(below(directory, draft_name("current"@)), path, n);
    lemma_apart(below(directory, draft_name("previous"@)), path, n);
}

/// What a channel selects of which nothing but the offered release is installed.
pub open spec fn only_release(
    paths: Places,
    channel: Channel,
    offer: Offer,
    version: Seq<char>,
) -> Selected {
    Selected {
        current: Some(
            Installed {
                name: install_name(channel, offer.id),
                path: paths.install_of(channel, offer.id),
                record: record_of(channel, offer, version),
            },
        ),
        previous: None,
    }
}

/// On a calm machine the first use of a channel, of which nothing is installed, installs the
/// release that it offers and puts the channel in use, if the programs provide the release and
/// nothing on disk prevents it. That release is then the only one that the channel selects.
#[verifier::rlimit(40)]
#[verifier::spinoff_prover]
pub proof fn first_use_succeeds(
    w: World,
    home: Seq<u8>,
    setting: Setting,
    channel: Channel,
    time: u128,
    offer: Offer,
    root: Seq<u8>,
    version: Seq<char>,
)
    requires
        absolute(home),
        calm(w.outside),
        orderly(w.outside, places_below(home)),
        state_of(w, places_below(home), channel) == Ok::<Selected, Seq<char>>(nothing_selected()),
        w.time().0 == Ok::<u128, Seq<char>>(time),
        ({
            let paths = places_below(home);
            let staging = within(paths.staging, staging_name(channel, setting.process, time));
            let w1 = staging_created(w, paths, channel, setting.process).1;
            let (resolved, w2) = offer_resolved(w1, setting, channel, staging);
            &&& installable(w, paths, channel, offer.id, staging)
            &&& resolved == Ok::<Offer, Seq<char>>(offer)
            &&& provided(w2, setting, offer, staging, root, version)
        }),
        destination(w, places_below(home)) is Ok,
        vacant(w.nodes, places_below(home).active),
        at(w.nodes, below(places_below(home).state, draft_name("active"@))) is None,
        exposable(
            missing_installed(w, places_below(home), setting, channel).1,
            places_below(home),
        ),
    ensures
        ({
            let (done, after) = channel_used(w, places_below(home), setting, channel);
            &&& done is Ok
            &&& after.outside == w.outside
            &&& in_use(after.nodes, places_below(home), channel)
            &&& state_of(after, places_below(home), channel) == Ok::<Selected, Seq<char>>(
                only_release(places_below(home), channel, offer, version),
            )
        }),
{
    let paths = places_below(home);
    let target = active_target(channel);
    let draft = below(paths.state, draft_name("active"@));
    let w1 = missing_installed(w, paths, setting, channel).1;
    lemma_places(home);
    offered_release_is_installed(
        w,
        home,
        setting,
        channel,
        nothing_selected(),
        time,
        offer,
        root,
        version,
    );
    assert(reaches(paths.active, paths.active));
    lemma_active_tree_spared(home, channel, paths.active);
    lemma_active_tree_spared(home, channel, draft);
    missing_installed_keeps(w, home, setting, channel, paths.active);
    missing_installed_keeps(w, home, setting, channel, draft);
    assert forall|inner: Seq<u8>| #[trigger]
        w1.nodes.contains_key(inner) && reaches(below(paths.state, "active"@), inner) implies inner
        == below(paths.state, "active"@) by {
        lemma_active_tree_spared(home, channel, inner);
        missing_installed_keeps(w, home, setting, channel, inner);
        assert(at(w1.nodes, inner) == at(w.nodes, inner));
        assert(w.nodes.contains_key(inner));
    }
    lemma_calm_sight(w1, paths.active);
    installed_channel_is_put_in_use(w1, home, channel);
}

} // verus!
