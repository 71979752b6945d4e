//! What an installation promises that fails, and one that leaves nothing superfluous behind.

use vstd::prelude::*;

use crate::channel::Channel;
use crate::cleanup::{installs_cleaned, refers};
use crate::disk::{at, kept, no_slash, orderly, selection};
use crate::encoding::decoded;
use crate::frames::{lemma_inside, lemma_reaches_on, printed_keeps, synced_keeps, warned_keeps};
use crate::host::{reaches, Deed, Node, Outside, World};
use crate::install::{
    archive_fetched, channel_installed, install_concluded, is_offered, record_of, release_added,
    release_obtained, release_published, release_selected, release_staged, release_taken,
};
use crate::install_frames::{
    archive_fetched_keeps, install_concluded_keeps, installs_cleaned_keeps, lemma_outside,
    metadata_written_keeps, offer_resolved_keeps, release_added_spares, release_selected_keeps,
    release_staged_keeps, staging_created_keeps, staging_removed_keeps,
};
use crate::installation::{state_of, states_of};
use crate::laws::lemma_state_selects;
use crate::laws_change::moves_whole;
use crate::laws_cleanup::{cleanup_leaves_only_selected, lists_all};
use crate::layout::{synced, warned};
use crate::locate::{
    ascii, below, is_name, is_place, lemma_apart, lemma_distinct_trees, lemma_names, lemma_places,
    lemma_siblings_apart,
};
use crate::metadata::Record;
use crate::path::{absolute, joined, SLASH};
use crate::paths::{install_name, places_below, within, Places};
use crate::programs::{offer_resolved, Offer, Setting};
use crate::release::{is_release_id, ASSET_NAME};
use crate::separation::{lemma_active_spared, lemma_install_place, lemma_link_place, unstaged};
use crate::staging::{metadata_written, staging_created, staging_finished, staging_removed};

verus! {

/// Whether an installation of a channel fails before a change of its links is begun.
pub open spec fn refused_early(w: World, paths: Places, setting: Setting, channel: Channel) -> bool {
    match state_of(w, paths, channel) {
        Err(_) => true,
        Ok(selected) => {
            let (created, w1) = staging_created(w, paths, channel, setting.process);
            match created {
                Err(_) => true,
                Ok(staging) => {
                    let (resolved, w2) = offer_resolved(w1, setting, channel, staging);
                    match resolved {
                        Err(_) => true,
                        Ok(offer) => !is_offered(selected.current, offer) && release_obtained(
                            w2,
                            paths,
                            setting,
                            channel,
                            offer,
                            staging,
                        ).0 is Err,
                    }
                },
            }
        },
    }
}

/// Whether there is something in the directory of releases under the name `own`, and `path` is in
/// it.
pub open spec fn in_entry(
    nodes: Map<Seq<u8>, Node>,
    paths: Places,
    own: Seq<u8>,
    path: Seq<u8>,
) -> bool {
    let entry = paths.installs.push(SLASH) + own;
    no_slash(own) && own.len() > 0 && at(nodes, entry) is Some && reaches(entry, path)
}

proof fn lemma_entry_unstaged(home: Seq<u8>, own: Seq<u8>, path: Seq<u8>)
    requires
        absolute(home),
        unstaged(places_below(home), path),
        reaches(places_below(home).installs.push(SLASH) + own, path),
    ensures
        unstaged(places_below(home), places_below(home).installs.push(SLASH) + own),
{
    let paths = places_below(home);
    let entry = paths.installs.push(SLASH) + own;
    lemma_places(home);
    assert(paths.installs.take(paths.state.len() as int) =~= paths.state);
    assert(entry.take(paths.installs.len() as int) =~= paths.installs);
    lemma_reaches_on(paths.state, paths.installs, entry);
    if reaches(paths.staging, entry) {
        lemma_reaches_on(paths.staging, entry, path);
    }
}

/// What is in the directory of releases, or not there at all, stays while a release is obtained.
proof fn lemma_obtaining_keeps(
    w: World,
    home: Seq<u8>,
    setting: Setting,
    channel: Channel,
    offer: Offer,
    staging: Seq<u8>,
    own: Seq<u8>,
    path: Seq<u8>,
)
    requires
        absolute(home),
        orderly(w.outside, places_below(home)),
        unstaged(places_below(home), path),
        !reaches(places_below(home).installs, path) || in_entry(
            w.nodes,
            places_below(home),
            own,
            path,
        ),
        reaches(places_below(home).staging, staging),
        is_place(staging),
        is_release_id(offer.id),
    ensures
        kept(w, release_obtained(w, places_below(home), setting, channel, offer, staging).1, path),
{
    reveal(release_obtained);
    let paths = places_below(home);
    let place = paths.install_of(channel, offer.id);
    if w.sight(place) is Absent {
        lemma_install_place(home, channel, offer.id);
        if reaches(paths.installs, path) {
            let name = install_name(channel, offer.id);
            let other = ascii(name);
            assert(at(w.nodes, place) is None) by {
                reveal(World::sight);
            }
            assert forall|k: int| 0 <= k < other.len() implies #[trigger] other[k] != SLASH by {
                assert(other[k] == name[k] as u8);
                assert(name[k] != '/');
            }
            assert(own != other);
            lemma_distinct_trees(paths.installs, own, other, path);
        } else {
            lemma_outside(paths.installs, place, path);
        }
        release_added_spares(w, home, setting, channel, offer, staging, path);
    }
}

/// An installation that fails before it changes the links of the channel leaves everything that nv
/// manages as it was, outside its staging directory: the links of all channels, the channel in use,
/// the executable, and every release that is installed.
pub proof fn failed_installation_keeps(
    w: World,
    home: Seq<u8>,
    setting: Setting,
    channel: Channel,
    own: Seq<u8>,
    path: Seq<u8>,
)
    requires
        absolute(home),
        orderly(w.outside, places_below(home)),
        refused_early(w, places_below(home), setting, channel),
        unstaged(places_below(home), path),
        !reaches(places_below(home).installs, path) || in_entry(
            w.nodes,
            places_below(home),
            own,
            path,
        ),
    ensures
        channel_installed(w, places_below(home), setting, channel).0 is Err,
        kept(w, channel_installed(w, places_below(home), setting, channel).1, path),
{
    let paths = places_below(home);
    let entry = paths.installs.push(SLASH) + own;
    if let Ok(selected) = state_of(w, paths, channel) {
        staging_created_keeps(w, home, channel, setting.process, path);
        let (created, w1) = staging_created(w, paths, channel, setting.process);
        if let Ok(staging) = created {
            reveal(release_selected);
            reveal(release_taken);
            offer_resolved_keeps(w1, paths, setting, channel, staging, path);
            if reaches(paths.installs, path) {
                lemma_entry_unstaged(home, own, path);
                staging_created_keeps(w, home, channel, setting.process, entry);
                offer_resolved_keeps(w1, paths, setting, channel, staging, entry);
            }
            let (resolved, w2) = offer_resolved(w1, setting, channel, staging);
            if let Ok(offer) = resolved {
                lemma_obtaining_keeps(w2, home, setting, channel, offer, staging, own, path);
            }
            let w3 = release_selected(w1, paths, setting, channel, selected.current, staging).1;
            staging_removed_keeps(w3, paths, staging, path);
        }
    }
}

/// Whether what a directory lists can always be brought to disk.
pub open spec fn syncs(outside: Outside) -> bool {
    forall|moment: nat, nodes: Map<Seq<u8>, Node>, path: Seq<u8>|
        (#[trigger] (outside.fault)(moment, nodes, Deed::SyncDirectory(path))) is None
}

/// A release that could not be added has no directory among the releases, on a machine on which a
/// directory that cannot be moved stays where it is, and directories can be brought to disk.
#[verifier::rlimit(60)]
#[verifier::spinoff_prover]
pub proof fn release_that_fails_has_no_directory(
    w: World,
    home: Seq<u8>,
    setting: Setting,
    channel: Channel,
    offer: Offer,
    staging: Seq<u8>,
)
    requires
        absolute(home),
        orderly(w.outside, places_below(home)),
        moves_whole(w.outside),
        syncs(w.outside),
        reaches(places_below(home).staging, staging),
        is_place(staging),
        is_release_id(offer.id),
        at(w.nodes, places_below(home).install_of(channel, offer.id)) is None,
        release_added(w, places_below(home), setting, channel, offer, staging).0 is Err,
    ensures
        at(
            release_added(w, places_below(home), setting, channel, offer, staging).1.nodes,
            places_below(home).install_of(channel, offer.id),
        ) is None,
{
    let paths = places_below(home);
    let place = paths.install_of(channel, offer.id);
    let archive = within(staging, ASSET_NAME@ + ".part"@);
    let extraction = within(staging, "extracted"@);
    lemma_install_place(home, channel, offer.id);
    lemma_place_unstaged(home, channel, offer.id);
    reveal(release_added);
    reveal_strlit("extracted");
    lemma_inside(paths.staging, staging, "extracted"@);
    archive_fetched_keeps(w, paths, setting, offer, archive, place);
    let (fetched, w1) = archive_fetched(w, setting, offer, archive);
    release_staged_keeps(w1, paths, archive, extraction, place);
    let (staged, w2) = release_staged(w1, archive, extraction);
    if let Ok((root, version)) = staged {
        let record = record_of(channel, offer, version);
        let metadata = within(root, ".nv-metadata"@);
        reveal(release_published);
        reveal_strlit(".nv-metadata");
        lemma_inside(paths.staging, root, ".nv-metadata"@);
        lemma_outside(paths.staging, metadata, place);
        metadata_written_keeps(w2, paths, metadata, record, place);
        let w3 = metadata_written(w2, metadata, record).1;
        synced_keeps(w3, paths, root, place);
        let (stored, w4) = synced(w3, root);
        let deed = Deed::Rename(root, place);
        let (renamed, w5) = w4.attempt(deed);
        reveal(World::attempt);
        assert((w5.outside.fault)(
            w5.moment,
            w5.nodes,
            Deed::SyncDirectory(paths.installs),
        ) is None);
    }
}

/// The place of a release is not in the directory for staging.
proof fn lemma_place_unstaged(home: Seq<u8>, channel: Channel, release: Seq<char>)
    requires
        absolute(home),
        is_release_id(release),
    ensures
        unstaged(places_below(home), places_below(home).install_of(channel, release)),
{
    let paths = places_below(home);
    let place = paths.install_of(channel, release);
    lemma_install_place(home, channel, release);
    lemma_places(home);
    lemma_names();
    assert(paths.installs.take(paths.state.len() as int) =~= paths.state);
    lemma_reaches_on(paths.state, paths.installs, place);
    reveal_strlit("installs");
    reveal_strlit("staging");
    lemma_siblings_apart(paths.state, "installs"@, "staging"@);
    let n = paths.state.len() as int + 1;
    assert(paths.installs[n] == 'i' as u8);
    assert(paths.staging[n] == 's' as u8);
    assert(place.take(paths.installs.len() as int) =~= paths.installs);
    assert(place[n] == paths.installs[n]);
    lemma_apart(paths.staging, place, n);
}

/// A staging directory that was removed is gone, with all that was in it.
pub proof fn removed_staging_is_gone(w: World, path: Seq<u8>, inner: Seq<u8>)
    requires
        staging_removed(w, path).0 is Ok,
        reaches(path, inner),
    ensures
        at(staging_removed(w, path).1.nodes, inner) is None,
{
    reveal(World::attempt);
}

/// The world in which a channel has been made to select a new release, with that release and the
/// staging directory, if an installation comes to that.
pub open spec fn newly_selected(w: World, paths: Places, setting: Setting, channel: Channel) -> Option<
    (World, Record, Seq<u8>),
> {
    match state_of(w, paths, channel) {
        Err(_) => None,
        Ok(selected) => {
            let (created, w1) = staging_created(w, paths, channel, setting.process);
            match created {
                Err(_) => None,
                Ok(staging) => {
                    let (chosen, w2) = release_selected(
                        w1,
                        paths,
                        setting,
                        channel,
                        selected.current,
                        staging,
                    );
                    match chosen {
                        Ok(Some(record)) => Some((w2, record, staging)),
                        _ => None,
                    }
                },
            }
        },
    }
}

/// Whether a link of some channel selects the release in the directory `name`.
pub open spec fn is_selected(nodes: Map<Seq<u8>, Node>, paths: Places, name: Seq<char>) -> bool {
    exists|channel: Channel, which: Seq<char>|
        (which == "current"@ || which == "previous"@) && #[trigger] selection(
            nodes,
            paths,
            channel,
            which,
        ) == Some(name)
}

/// After an installation or an update whose cleanup succeeded, every entry of the directory of
/// releases is a release that a link of a channel selects.
#[verifier::rlimit(60)]
#[verifier::spinoff_prover]
pub proof fn installation_leaves_only_selected(
    w: World,
    home: Seq<u8>,
    setting: Setting,
    channel: Channel,
    name: Seq<u8>,
)
    requires
        absolute(home),
        orderly(w.outside, places_below(home)),
        newly_selected(w, places_below(home), setting, channel) matches Some((w2, _, _))
            && installs_cleaned(w2, places_below(home)).0 is Ok && lists_all(
            w2,
            places_below(home),
        ),
        no_slash(name),
        name.len() > 0,
        at(
            channel_installed(w, places_below(home), setting, channel).1.nodes,
            joined(places_below(home).installs, name),
        ) is Some,
    ensures
        decoded(name) matches Ok(text) && is_selected(
            channel_installed(w, places_below(home), setting, channel).1.nodes,
            places_below(home),
            text,
        ),
{
    let paths = places_below(home);
    let path = joined(paths.installs, name);
    let after = channel_installed(w, paths, setting, channel).1;
    let (w2, record, staging) = newly_selected(w, paths, setting, channel)->0;
    let w1 = staging_created(w, paths, channel, setting.process).1;
    lemma_names();
    lemma_active_spared(home, channel);
    staging_created_keeps(w, home, channel, setting.process, paths.active);
    release_selected_keeps(
        w1,
        home,
        setting,
        channel,
        state_of(w, paths, channel)->Ok_0.current,
        staging,
        paths.active,
    );
    lemma_concluded(w2, home, channel, record, staging, name);
    cleanup_leaves_only_selected(w2, home, name);
    let states = states_of(w2, paths)->Ok_0;
    let text = decoded(name)->Ok_0;
    let k = choose|k: int| 0 <= k < states.len() && refers((#[trigger] states[k]).1, text);
    let owner = states[k].0;
    lemma_state_selects(w2, paths, owner);
    lemma_link_place(home, owner, "current"@);
    lemma_link_place(home, owner, "previous"@);
    install_concluded_keeps(
        w2,
        home,
        channel,
        record,
        staging,
        paths.link_of(owner, "current"@),
    );
    install_concluded_keeps(
        w2,
        home,
        channel,
        record,
        staging,
        paths.link_of(owner, "previous"@),
    );
    assert(selection(after.nodes, paths, owner, "current"@) == selection(
        w2.nodes,
        paths,
        owner,
        "current"@,
    ));
    assert(selection(after.nodes, paths, owner, "previous"@) == selection(
        w2.nodes,
        paths,
        owner,
        "previous"@,
    ));
}

/// Once the cleanup has succeeded, the end of an installation leaves the directory of releases as
/// it is.
proof fn lemma_concluded(
    w: World,
    home: Seq<u8>,
    channel: Channel,
    record: Record,
    staging: Seq<u8>,
    name: Seq<u8>,
)
    requires
        absolute(home),
        orderly(w.outside, places_below(home)),
        installs_cleaned(w, places_below(home)).0 is Ok,
        reaches(places_below(home).staging, staging),
        no_slash(name),
        name.len() > 0,
    ensures
        at(
            install_concluded(w, places_below(home), channel, record, staging).1.nodes,
            joined(places_below(home).installs, name),
        ) == at(
            installs_cleaned(w, places_below(home)).1.nodes,
            joined(places_below(home).installs, name),
        ),
{
    reveal(install_concluded);
    let paths = places_below(home);
    let path = joined(paths.installs, name);
    let n = paths.state.len() as int + 1;
    lemma_places(home);
    lemma_names();
    reveal_strlit("installs");
    reveal_strlit("staging");
    assert(name[0] != SLASH);
    assert(path == paths.installs.push(SLASH) + name);
    lemma_byte_of(paths.state, "installs"@);
    lemma_byte_of(paths.state, "staging"@);
    assert(path[n] == paths.installs[n]);
    lemma_apart(paths.staging, path, n);
    lemma_active_spared(home, channel);
    installs_cleaned_keeps(w, home, paths.active);
    let w1 = installs_cleaned(w, paths).1;
    staging_removed_keeps(w1, paths, staging, path);
    let (finished, w2) = staging_finished(w1, staging);
    let complaint = "nv: warning: installation committed, but staging cleanup failed: "@
        + finished->Err_0;
    warned_keeps(w2, paths, complaint, path);
    let w3 = match finished {
        Ok(()) => w2,
        Err(_) => warned(w2, complaint).1,
    };
    printed_keeps(
        w3,
        paths,
        "installed "@ + channel.name() + " "@ + record.version + " (release "@ + record.release
            + ")"@,
        path,
    );
}

proof fn lemma_byte_of(base: Seq<u8>, text: Seq<char>)
    requires
        is_name(text),
    ensures
        below(base, text)[base.len() as int + 1] == text[0] as u8,
{
    assert(ascii(text)[0] == text[0] as u8);
}

} // verus!
