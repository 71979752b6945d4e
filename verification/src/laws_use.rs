//! What the commands promise of the channel in use.

use vstd::prelude::*;
use vstd::utf8::*;

use crate::activation::{active_target, bin_prepared, channel_activated, nvim_linked};
use crate::changes::lemma_link_replaced;
use crate::channel::Channel;
use crate::disk::{at, lemma_stored};
use crate::host::{reaches, Deed, Node, World};
use crate::install::missing_installed;
use crate::installation::state_of;
use crate::layout::{layout_ensured, synced};
use crate::locate::{below, draft_name, lemma_draft, lemma_names, lemma_places};
use crate::path::{absolute, same_path};
use crate::paths::{places_below, NVIM_LINK_TARGET, Places};
use crate::pointers::link_replaced;
use crate::programs::Setting;
use crate::run::{operated, Operation};
use crate::separation::lemma_parting;

verus! {

/// Whether a channel is in use: the link of the channel in use points to it, and the executable is
/// the link that nv makes.
pub open spec fn in_use(nodes: Map<Seq<u8>, Node>, paths: Places, channel: Channel) -> bool {
    &&& at(nodes, paths.active) matches Some(Node::Link { target }) && same_path(
        target,
        active_target(channel),
    )
    &&& at(nodes, paths.nvim_link) matches Some(Node::Link { target }) && same_path(
        target,
        encode_utf8(NVIM_LINK_TARGET@),
    )
}

proof fn lemma_exposed(w: World, home: Seq<u8>)
    requires
        absolute(home),
        nvim_linked(w, places_below(home)).0 is Ok,
    ensures
        at(
            nvim_linked(w, places_below(home)).1.nodes,
            places_below(home).nvim_link,
        ) matches Some(Node::Link { target }) && same_path(
            target,
            encode_utf8(NVIM_LINK_TARGET@),
        ),
{
    let paths = places_below(home);
    lemma_places(home);
    lemma_names();
    let w1 = bin_prepared(w, paths).1;
    let target = encode_utf8(NVIM_LINK_TARGET@);
    if w1.sight(paths.nvim_link) is Absent {
        lemma_link_replaced(w1, paths.local_bin, "nvim"@, target, paths.nvim_link);
        let w2 = link_replaced(w1, paths.nvim_link, target).1;
        lemma_stored(w2, Deed::SyncDirectory(paths.local_bin));
    } else {
        reveal(World::sight);
        reveal(World::target);
    }
}

/// The link of the channel in use and its draft are apart from the executable.
proof fn lemma_active_and_nvim(home: Seq<u8>)
    requires
        absolute(home),
    ensures
        !reaches(places_below(home).active, places_below(home).nvim_link),
        !reaches(
            below(places_below(home).state, draft_name("active"@)),
            places_below(home).nvim_link,
        ),
{
    let paths = places_below(home);
    let draft = below(paths.state, draft_name("active"@));
    lemma_places(home);
    lemma_names();
    lemma_draft(paths.state, "active"@);
    assert(paths.active.take(paths.state.len() as int) =~= paths.state);
    assert(draft.take(paths.state.len() as int) =~= paths.state);
    lemma_parting(home, paths.active);
    lemma_parting(home, draft);
}

/// A channel that was put in use is in use.
pub proof fn activated_channel_is_in_use(w: World, home: Seq<u8>, channel: Channel)
    requires
        absolute(home),
        channel_activated(w, places_below(home), channel).0 is Ok,
    ensures
        in_use(
            channel_activated(w, places_below(home), channel).1.nodes,
            places_below(home),
            channel,
        ),
{
    let paths = places_below(home);
    lemma_places(home);
    lemma_names();
    lemma_active_and_nvim(home);
    lemma_exposed(w, home);
    let w1 = nvim_linked(w, paths).1;
    let target = active_target(channel);
    lemma_link_replaced(w1, paths.state, "active"@, target, paths.nvim_link);
    let w2 = link_replaced(w1, paths.active, target).1;
    lemma_stored(w2, Deed::SyncDirectory(paths.state));
    let w3 = synced(w2, paths.state).1;
    let current = state_of(w, paths, channel)->Ok_0.current->0;
    lemma_stored(
        w3,
        Deed::Print(
            "using "@ + channel.name() + " "@ + current.record.version + " (release "@
                + current.record.release + ")"@,
        ),
    );
}

/// After the use of a channel has succeeded, the channel is in use.
pub proof fn used_channel_is_in_use(w: World, home: Seq<u8>, setting: Setting, channel: Channel)
    requires
        absolute(home),
        operated(w, places_below(home), setting, Operation::Use(channel)).0 is Ok,
    ensures
        in_use(
            operated(w, places_below(home), setting, Operation::Use(channel)).1.nodes,
            places_below(home),
            channel,
        ),
{
    let paths = places_below(home);
    let w1 = layout_ensured(w, paths).1;
    let w2 = missing_installed(w1, paths, setting, channel).1;
    activated_channel_is_in_use(w2, home, channel);
}

} // verus!
