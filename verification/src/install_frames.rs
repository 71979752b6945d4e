//! What an installation leaves as it was, whether it succeeds or not.

use vstd::prelude::*;
use vstd::utf8::*;

use crate::channel::Channel;
use crate::cleanup::{installs_cleaned, trees_removed, unreferenced};
use crate::disk::{kept, lemma_attempted, lemma_created, lemma_ran, no_slash, orderly};
use crate::frames::{
    change_committed_keeps, lemma_inside, lemma_reaches_on, lemma_staging, printed_keeps,
    synced_keeps, warned_keeps,
};
use crate::host::{reaches, Deed, Names, World};
use crate::install::{
    archive_fetched, channel_installed, install_concluded, missing_installed, record_of,
    release_added, release_line, release_obtained, release_published, release_renewed,
    release_selected, release_staged, release_taken,
};
use crate::installation::{state_of, states_of, Installed, Selected};
use crate::layout::{synced, warned};
use crate::locate::{is_place, lemma_places};
use crate::metadata::{record_text, Record};
use crate::path::{absolute, joined};
use crate::paths::{places_below, within, Places};
use crate::pointers::replacement;
use crate::programs::{
    asset_downloaded, curl, downloaded, extracted, jq, offer_resolved, sha256sum, staged_check, tar,
    API_TIMEOUT_SECONDS, ARCHIVE_ROOT, ASSET_TIMEOUT_SECONDS, MAX_API_RESPONSE_SIZE, Offer, Setting,
};
use crate::release::{is_release_id, ASSET_NAME};
use crate::separation::{lemma_install_place, spared, unstaged};
use crate::staging::{
    metadata_written, staging_created, staging_finished, staging_name, staging_removed,
};

verus! {

/// What is not in a directory is apart from all that is.
pub proof fn lemma_outside(top: Seq<u8>, inner: Seq<u8>, path: Seq<u8>)
    requires
        reaches(top, inner),
        !reaches(top, path),
    ensures
        path != inner,
        !reaches(inner, path),
{
    if reaches(inner, path) {
        lemma_reaches_on(top, inner, path);
    }
}

pub proof fn staging_created_keeps(w: World, home: Seq<u8>, channel: Channel, process: u32, path: Seq<u8>)
    requires
        absolute(home),
        orderly(w.outside, places_below(home)),
        !reaches(places_below(home).staging, path),
    ensures
        ({
            let (created, after) = staging_created(w, places_below(home), channel, process);
            &&& kept(w, after, path)
            &&& created matches Ok(staging) ==> reaches(places_below(home).staging, staging)
                && is_place(staging)
        }),
{
    reveal(World::time);
    let paths = places_below(home);
    let w1 = w.time().1;
    if let Ok(time) = w.time().0 {
        let staging = within(paths.staging, staging_name(channel, process, time));
        lemma_staging(home, channel, process, time);
        lemma_outside(paths.staging, staging, path);
        lemma_attempted(w1, paths, Deed::MakeDirectory(staging), path);
    }
}

/// To remove a staging directory changes nothing else.
pub proof fn staging_removed_keeps(w: World, paths: Places, staging: Seq<u8>, path: Seq<u8>)
    requires
        orderly(w.outside, paths),
        reaches(paths.staging, staging),
        !reaches(paths.staging, path),
    ensures
        kept(w, staging_removed(w, staging).1, path),
        kept(w, staging_finished(w, staging).1, path),
{
    lemma_outside(paths.staging, staging, path);
    lemma_attempted(w, paths, Deed::RemoveTree(staging), path);
    let w1 = staging_removed(w, staging).1;
    lemma_attempted(w1, paths, Deed::RemoveTree(staging), path);
}

proof fn downloaded_keeps(
    w: World,
    paths: Places,
    setting: Setting,
    url: Seq<char>,
    place: Seq<u8>,
    api: bool,
    size: nat,
    seconds: nat,
    path: Seq<u8>,
)
    requires
        orderly(w.outside, paths),
        unstaged(paths, path),
    ensures
        kept(w, downloaded(w, setting, url, place, api, size, seconds).1, path),
{
    lemma_ran(w, paths, curl(setting, url, place, api, size, seconds), path);
}

pub proof fn offer_resolved_keeps(
    w: World,
    paths: Places,
    setting: Setting,
    channel: Channel,
    staging: Seq<u8>,
    path: Seq<u8>,
)
    requires
        orderly(w.outside, paths),
        unstaged(paths, path),
    ensures
        kept(w, offer_resolved(w, setting, channel, staging).1, path),
        offer_resolved(w, setting, channel, staging).0 matches Ok(offer) ==> is_release_id(
            offer.id,
        ),
{
    let response = within(staging, "release.json"@);
    let size = MAX_API_RESPONSE_SIZE as nat;
    let seconds = API_TIMEOUT_SECONDS as nat;
    downloaded_keeps(w, paths, setting, channel.url(), response, true, size, seconds, path);
    let w1 = downloaded(w, setting, channel.url(), response, true, size, seconds).1;
    lemma_ran(w1, paths, jq(response), path);
}

pub proof fn archive_fetched_keeps(
    w: World,
    paths: Places,
    setting: Setting,
    offer: Offer,
    archive: Seq<u8>,
    path: Seq<u8>,
)
    requires
        orderly(w.outside, paths),
        unstaged(paths, path),
    ensures
        kept(w, archive_fetched(w, setting, offer, archive).1, path),
{
    reveal(archive_fetched);
    let seconds = ASSET_TIMEOUT_SECONDS as nat;
    downloaded_keeps(
        w,
        paths,
        setting,
        offer.url,
        archive,
        false,
        offer.size as nat,
        seconds,
        path,
    );
    let w1 = asset_downloaded(w, setting, offer, archive).1;
    lemma_ran(w1, paths, sha256sum(archive), path);
}

pub proof fn release_staged_keeps(
    w: World,
    paths: Places,
    archive: Seq<u8>,
    extraction: Seq<u8>,
    path: Seq<u8>,
)
    requires
        orderly(w.outside, paths),
        unstaged(paths, path),
        reaches(paths.staging, extraction),
        is_place(extraction),
    ensures
        kept(w, release_staged(w, archive, extraction).1, path),
        release_staged(w, archive, extraction).0 matches Ok((root, _)) ==> reaches(
            paths.staging,
            root,
        ) && is_place(root),
{
    reveal(release_staged);
    lemma_outside(paths.staging, extraction, path);
    lemma_attempted(w, paths, Deed::MakeDirectory(extraction), path);
    let w1 = w.attempt(Deed::MakeDirectory(extraction)).1;
    lemma_ran(w1, paths, tar(archive, extraction), path);
    let w2 = extracted(w1, archive, extraction).1;
    reveal_strlit("nvim-linux-x86_64");
    let root = within(extraction, ARCHIVE_ROOT@);
    lemma_inside(paths.staging, extraction, ARCHIVE_ROOT@);
    lemma_ran(w2, paths, staged_check(root), path);
}

pub proof fn metadata_written_keeps(
    w: World,
    paths: Places,
    place: Seq<u8>,
    record: Record,
    path: Seq<u8>,
)
    requires
        orderly(w.outside, paths),
        path != place,
    ensures
        kept(w, metadata_written(w, place, record).1, path),
{
    lemma_created(w, paths, place, path);
    let w1 = w.create(place).1;
    let write = Deed::Write(place, record_text(record));
    lemma_attempted(w1, paths, write, path);
    let w2 = w1.attempt(write).1;
    lemma_attempted(w2, paths, Deed::Flush(place), path);
    let w3 = w2.attempt(Deed::Flush(place)).1;
    lemma_attempted(w3, paths, Deed::SyncFile(place), path);
}

proof fn release_published_keeps(
    w: World,
    paths: Places,
    root: Seq<u8>,
    place: Seq<u8>,
    record: Record,
    path: Seq<u8>,
)
    requires
        orderly(w.outside, paths),
        unstaged(paths, path),
        reaches(paths.staging, root),
        is_place(root),
        !reaches(place, path),
    ensures
        kept(w, release_published(w, paths, root, place, record).1, path),
{
    reveal(release_published);
    reveal_strlit(".nv-metadata");
    let metadata = within(root, ".nv-metadata"@);
    lemma_inside(paths.staging, root, ".nv-metadata"@);
    lemma_outside(paths.staging, metadata, path);
    lemma_outside(paths.staging, root, path);
    metadata_written_keeps(w, paths, metadata, record, path);
    let w1 = metadata_written(w, metadata, record).1;
    synced_keeps(w1, paths, root, path);
    let w2 = synced(w1, root).1;
    lemma_attempted(w2, paths, Deed::Rename(root, place), path);
    let w3 = w2.attempt(Deed::Rename(root, place)).1;
    synced_keeps(w3, paths, paths.installs, path);
}

/// To download a release and move it to its place changes nothing but that place.
pub proof fn release_added_spares(
    w: World,
    home: Seq<u8>,
    setting: Setting,
    channel: Channel,
    offer: Offer,
    staging: Seq<u8>,
    path: Seq<u8>,
)
    requires
        absolute(home),
        orderly(w.outside, places_below(home)),
        unstaged(places_below(home), path),
        reaches(places_below(home).staging, staging),
        is_place(staging),
        is_release_id(offer.id),
        !reaches(places_below(home).install_of(channel, offer.id), path),
    ensures
        kept(w, release_added(w, places_below(home), setting, channel, offer, staging).1, path),
{
    reveal(release_added);
    let paths = places_below(home);
    let archive = within(staging, ASSET_NAME@ + ".part"@);
    let extraction = within(staging, "extracted"@);
    let place = paths.install_of(channel, offer.id);
    reveal_strlit("extracted");
    lemma_inside(paths.staging, staging, "extracted"@);
    archive_fetched_keeps(w, paths, setting, offer, archive, path);
    let w1 = archive_fetched(w, setting, offer, archive).1;
    release_staged_keeps(w1, paths, archive, extraction, path);
    let (staged, w2) = release_staged(w1, archive, extraction);
    if let Ok((root, version)) = staged {
        release_published_keeps(
            w2,
            paths,
            root,
            place,
            record_of(channel, offer, version),
            path,
        );
    }
}

pub proof fn release_added_keeps(
    w: World,
    home: Seq<u8>,
    setting: Setting,
    channel: Channel,
    offer: Offer,
    staging: Seq<u8>,
    path: Seq<u8>,
)
    requires
        absolute(home),
        orderly(w.outside, places_below(home)),
        unstaged(places_below(home), path),
        !reaches(places_below(home).installs, path),
        reaches(places_below(home).staging, staging),
        is_place(staging),
        is_release_id(offer.id),
    ensures
        kept(w, release_added(w, places_below(home), setting, channel, offer, staging).1, path),
{
    let place = places_below(home).install_of(channel, offer.id);
    lemma_install_place(home, channel, offer.id);
    lemma_outside(places_below(home).installs, place, path);
    release_added_spares(w, home, setting, channel, offer, staging, path);
}

pub proof fn release_selected_keeps(
    w: World,
    home: Seq<u8>,
    setting: Setting,
    channel: Channel,
    had: Option<Installed>,
    staging: Seq<u8>,
    path: Seq<u8>,
)
    requires
        absolute(home),
        orderly(w.outside, places_below(home)),
        spared(places_below(home), channel, path),
        reaches(places_below(home).staging, staging),
        is_place(staging),
    ensures
        kept(
            w,
            release_selected(w, places_below(home), setting, channel, had, staging).1,
            path,
        ),
{
    reveal(release_selected);
    reveal(release_taken);
    reveal(release_obtained);
    let paths = places_below(home);
    offer_resolved_keeps(w, paths, setting, channel, staging, path);
    let (resolved, w1) = offer_resolved(w, setting, channel, staging);
    if let Ok(offer) = resolved {
        let record = had->0.record;
        printed_keeps(
            w1,
            paths,
            release_line(channel, " is already current: "@, record.version, record.release),
            path,
        );
        release_added_keeps(w1, home, setting, channel, offer, staging, path);
        let (obtained, w2) = release_obtained(w1, paths, setting, channel, offer, staging);
        if let Ok(record) = obtained {
            change_committed_keeps(w2, home, replacement(channel, had, record), path);
        }
    }
}

/// What is removed as unreferenced is in the directory of releases.
pub proof fn lemma_unreferenced(
    w: World,
    paths: Places,
    states: Seq<(Channel, Selected)>,
    names: Seq<Seq<u8>>,
)
    requires
        is_place(paths.installs),
        forall|k: int| 0 <= k < names.len() ==> no_slash(#[trigger] names[k]),
    ensures
        unreferenced(w, paths, states, names) matches Ok(trees) ==> forall|k: int|
            0 <= k < trees.len() ==> reaches(paths.installs, #[trigger] trees[k]),
    decreases names.len(),
{
    if names.len() > 0 {
        assert forall|k: int| 0 <= k < names.skip(1).len() implies no_slash(
            #[trigger] names.skip(1)[k],
        ) by {
            assert(names.skip(1)[k] == names[k + 1]);
        }
        lemma_unreferenced(w, paths, states, names.skip(1));
        let path = joined(paths.installs, names[0]);
        assert(no_slash(names[0]));
        assert(path.take(paths.installs.len() as int) =~= paths.installs);
        assert(reaches(paths.installs, path));
    }
}

pub proof fn trees_removed_keeps(w: World, paths: Places, trees: Seq<Seq<u8>>, path: Seq<u8>)
    requires
        orderly(w.outside, paths),
        forall|k: int| 0 <= k < trees.len() ==> !reaches(#[trigger] trees[k], path),
    ensures
        kept(w, trees_removed(w, trees).1, path),
    decreases trees.len(),
{
    if trees.len() > 0 {
        lemma_attempted(w, paths, Deed::RemoveTree(trees[0]), path);
        assert forall|k: int| 0 <= k < trees.skip(1).len() implies !reaches(
            #[trigger] trees.skip(1)[k],
            path,
        ) by {
            assert(trees.skip(1)[k] == trees[k + 1]);
        }
        trees_removed_keeps(
            w.attempt(Deed::RemoveTree(trees[0])).1,
            paths,
            trees.skip(1),
            path,
        );
    }
}

/// The removal of releases changes nothing outside their directory.
pub proof fn installs_cleaned_keeps(w: World, home: Seq<u8>, path: Seq<u8>)
    requires
        absolute(home),
        orderly(w.outside, places_below(home)),
        !reaches(places_below(home).installs, path),
    ensures
        kept(w, installs_cleaned(w, places_below(home)).1, path),
{
    let paths = places_below(home);
    lemma_places(home);
    reveal(World::listing);
    if let Ok(states) = states_of(w, paths) {
        if let Names::Names(names) = w.listing(paths.installs) {
            lemma_unreferenced(w, paths, states, names);
            if let Ok(trees) = unreferenced(w, paths, states, names) {
                assert forall|k: int| 0 <= k < trees.len() implies !reaches(
                    #[trigger] trees[k],
                    path,
                ) by {
                    lemma_outside(paths.installs, trees[k], path);
                }
                trees_removed_keeps(w, paths, trees, path);
                synced_keeps(trees_removed(w, trees).1, paths, paths.installs, path);
            }
        }
    }
}

pub proof fn install_concluded_keeps(
    w: World,
    home: Seq<u8>,
    channel: Channel,
    record: Record,
    staging: Seq<u8>,
    path: Seq<u8>,
)
    requires
        absolute(home),
        orderly(w.outside, places_below(home)),
        !reaches(places_below(home).installs, path),
        !reaches(places_below(home).staging, path),
        reaches(places_below(home).staging, staging),
    ensures
        kept(w, install_concluded(w, places_below(home), channel, record, staging).1, path),
{
    reveal(install_concluded);
    let paths = places_below(home);
    installs_cleaned_keeps(w, home, path);
    let (cleaned, w1) = installs_cleaned(w, paths);
    let complaint = "nv: warning: installation committed, but cleanup failed: "@ + cleaned->Err_0;
    warned_keeps(w1, paths, complaint, path);
    let w2 = match cleaned {
        Ok(()) => w1,
        Err(_) => warned(w1, complaint).1,
    };
    staging_removed_keeps(w2, paths, staging, path);
    let (finished, w3) = staging_finished(w2, staging);
    let complaint2 = "nv: warning: installation committed, but staging cleanup failed: "@
        + finished->Err_0;
    warned_keeps(w3, paths, complaint2, path);
    let w4 = match finished {
        Ok(()) => w3,
        Err(_) => warned(w3, complaint2).1,
    };
    printed_keeps(
        w4,
        paths,
        "installed "@ + channel.name() + " "@ + record.version + " (release "@ + record.release
            + ")"@,
        path,
    );
}

proof fn release_renewed_keeps(
    w: World,
    home: Seq<u8>,
    setting: Setting,
    channel: Channel,
    had: Option<Installed>,
    staging: Seq<u8>,
    path: Seq<u8>,
)
    requires
        absolute(home),
        orderly(w.outside, places_below(home)),
        spared(places_below(home), channel, path),
        reaches(places_below(home).staging, staging),
        is_place(staging),
    ensures
        kept(
            w,
            release_renewed(w, places_below(home), setting, channel, had, staging).1,
            path,
        ),
{
    let paths = places_below(home);
    release_selected_keeps(w, home, setting, channel, had, staging, path);
    let (chosen, w1) = release_selected(w, paths, setting, channel, had, staging);
    staging_removed_keeps(w1, paths, staging, path);
    if let Ok(Some(record)) = chosen {
        install_concluded_keeps(w1, home, channel, record, staging, path);
    }
}

/// An installation changes nothing that nv manages beside its staging directory, the directory of
/// releases, and the links of the channel.
pub proof fn channel_installed_keeps(
    w: World,
    home: Seq<u8>,
    setting: Setting,
    channel: Channel,
    path: Seq<u8>,
)
    requires
        absolute(home),
        orderly(w.outside, places_below(home)),
        spared(places_below(home), channel, path),
    ensures
        kept(w, channel_installed(w, places_below(home), setting, channel).1, path),
{
    let paths = places_below(home);
    staging_created_keeps(w, home, channel, setting.process, path);
    if let Ok(selected) = state_of(w, paths, channel) {
        let had = selected.current;
        let (created, w1) = staging_created(w, paths, channel, setting.process);
        if let Ok(staging) = created {
            release_renewed_keeps(w1, home, setting, channel, had, staging, path);
        }
    }
}

/// The installation of a missing channel changes nothing that nv manages beside its staging
/// directory, the directory of releases, and the links of the channel.
pub proof fn missing_installed_keeps(
    w: World,
    home: Seq<u8>,
    setting: Setting,
    channel: Channel,
    path: Seq<u8>,
)
    requires
        absolute(home),
        orderly(w.outside, places_below(home)),
        spared(places_below(home), channel, path),
    ensures
        kept(w, missing_installed(w, places_below(home), setting, channel).1, path),
{
    let paths = places_below(home);
    channel_installed_keeps(w, home, setting, channel, path);
    if let Ok(selected) = state_of(w, paths, channel) {
        let record = selected.current->0.record;
        printed_keeps(
            w,
            paths,
            release_line(channel, " is already installed: "@, record.version, record.release),
            path,
        );
    }
}

} // verus!
