//! The installation of a release.

use vstd::prelude::*;

use crate::channel::Channel;
use crate::cleanup::{cleanup_deeds, cleanup_unreferenced_installs, installs_cleaned};
use crate::host::{
    failed, group_walked, ran, told, Action, Attempt, Deed, Lookup, Session, Sight, Stop, World,
};
use crate::installation::{
    installation_at, installation_deeds, read_channel_state, read_installation, state_deeds,
    state_of, Installation, Installed,
};
use crate::layout::{print, printed, sync_directory, synced, warn, warned};
use crate::metadata::{InstallMetadata, Record};
use crate::path::{shown, UnixPath};
use crate::paths::{within, Paths, Places};
use crate::pointers::{change_committed, committing_deeds, replace_channel_pointers, replacement};
use crate::programs::{
    asset_downloaded, asset_request, digest_verified, download_asset, download_deeds,
    extract_archive, extracted, extracted_root, offer_deeds, offer_resolved, resolve_release,
    right_size, root_deeds, sha256sum, staged_check, staged_version, tar, validate_extracted_layout,
    verify_archive_digest, verify_size, version_reported, Offer, RemoteRelease, Setting,
};
use crate::release::ASSET_NAME;
use crate::staging::{
    creation_deeds, description_deeds, finish_deeds, metadata_written, removal_deeds,
    staging_created, staging_finished, staging_removed, write_metadata, StagingGuard,
};
use crate::text::same;

verus! {

broadcast use group_walked;

/// Downloads the archive of a release and checks that it is what was announced.
#[verifier::opaque]
pub open spec fn archive_fetched(w: World, setting: Setting, offer: Offer, archive: Seq<u8>) -> (
    Result<(), Seq<char>>,
    World,
) {
    let (downloaded, w1) = asset_downloaded(w, setting, offer, archive);
    match downloaded {
        Err(message) => (Err(message), w1),
        Ok(()) => match right_size(w1, archive, offer.size) {
            Err(message) => (Err(message), w1),
            Ok(()) => digest_verified(w1, archive, offer.sha256),
        },
    }
}

/// What is done for that.
pub open spec fn fetching_deeds(w: World, setting: Setting, offer: Offer, archive: Seq<u8>) -> Seq<
    Deed,
> {
    let (downloaded, w1) = asset_downloaded(w, setting, offer, archive);
    download_deeds(w, asset_request(setting, offer, archive), archive) + match downloaded {
        Err(_) => seq![],
        Ok(()) => seq![Deed::Measure(archive)] + match right_size(w1, archive, offer.size) {
            Err(_) => seq![],
            Ok(()) => seq![Deed::Run(sha256sum(archive))],
        },
    }
}

fn fetch_archive(
    session: &mut Session,
    setting: &Setting,
    release: &RemoteRelease,
    archive: &UnixPath,
) -> (done: Result<(), Stop>)
    ensures
        ran(
            *old(session),
            *final(session),
            told(done),
            fetching_deeds(old(session).world(), *setting, release.deep_view(), archive@),
            archive_fetched(old(session).world(), *setting, release.deep_view(), archive@),
        ),
{
    proof {
        reveal(archive_fetched);
    }
    download_asset(session, setting, release, archive)?;
    verify_size(session, archive, release.size)?;
    verify_archive_digest(session, archive, release.sha256.as_str())
}

/// The directory that an archive was extracted to, and the version of the Neovim in it.
pub open spec fn root_and_version(w: World, extraction: Seq<u8>) -> (
    Result<(Seq<u8>, Seq<char>), Seq<char>>,
    World,
) {
    match extracted_root(w, extraction) {
        Err(message) => (Err(message), w),
        Ok(root) => {
            let (version, w1) = version_reported(w, root);
            match version {
                Err(message) => (Err(message), w1),
                Ok(version) => (Ok((root, version)), w1),
            }
        },
    }
}

/// Extracts the archive of a release into a new directory.
#[verifier::opaque]
pub open spec fn release_staged(w: World, archive: Seq<u8>, extraction: Seq<u8>) -> (
    Result<(Seq<u8>, Seq<char>), Seq<char>>,
    World,
) {
    let (made, w1) = w.attempt(Deed::MakeDirectory(extraction));
    match made {
        Err(cause) => (
            Err("failed to create extraction directory "@ + shown(extraction) + ": "@ + cause),
            w1,
        ),
        Ok(()) => {
            let (unpacked, w2) = extracted(w1, archive, extraction);
            match unpacked {
                Err(message) => (Err(message), w2),
                Ok(()) => root_and_version(w2, extraction),
            }
        },
    }
}

/// What is done for that.
pub open spec fn extraction_deeds(w: World, archive: Seq<u8>, extraction: Seq<u8>) -> Seq<Deed> {
    let (made, w1) = w.attempt(Deed::MakeDirectory(extraction));
    let (unpacked, w2) = extracted(w1, archive, extraction);
    seq![Deed::MakeDirectory(extraction)] + match made {
        Err(_) => seq![],
        Ok(()) => seq![Deed::Run(tar(archive, extraction))] + match unpacked {
            Err(_) => seq![],
            Ok(()) => root_deeds(w2, extraction) + match extracted_root(w2, extraction) {
                Err(_) => seq![],
                Ok(root) => seq![Deed::Run(staged_check(root))],
            },
        },
    }
}

fn stage_release(session: &mut Session, archive: &UnixPath, extraction: &UnixPath) -> (done: Result<
    (UnixPath, String),
    Stop,
>)
    ensures
        ran(
            *old(session),
            *final(session),
            told(done),
            extraction_deeds(old(session).world(), archive@, extraction@),
            release_staged(old(session).world(), archive@, extraction@),
        ),
{
    proof {
        reveal(release_staged);
    }
    match session.attempt(Action::MakeDirectory(extraction.copy()))? {
        Attempt::Done(_) => {},
        Attempt::Failed(cause) => return Err(
            failed(
                "failed to create extraction directory ".to_owned().concat(
                    extraction.display().as_str(),
                ).concat(": ").concat(cause.as_str()),
            ),
        ),
    }
    extract_archive(session, archive, extraction)?;
    let root = validate_extracted_layout(session, extraction)?;
    let version = staged_version(session, &root)?;
    Ok((root, version))
}

/// Moves a release to its place.
pub open spec fn release_placed(w: World, paths: Places, root: Seq<u8>, place: Seq<u8>) -> (
    Result<(), Seq<char>>,
    World,
) {
    let (stored, w1) = synced(w, root);
    match stored {
        Err(message) => (Err(message), w1),
        Ok(()) => {
            let (renamed, w2) = w1.attempt(Deed::Rename(root, place));
            match renamed {
                Err(cause) => (
                    Err(
                        "failed to publish staged installation "@ + shown(root) + " as "@ + shown(
                            place,
                        ) + ": "@ + cause,
                    ),
                    w2,
                ),
                Ok(()) => synced(w2, paths.installs),
            }
        },
    }
}

/// Describes a release and moves it to its place.
#[verifier::opaque]
pub open spec fn release_published(
    w: World,
    paths: Places,
    root: Seq<u8>,
    place: Seq<u8>,
    record: Record,
) -> (Result<(), Seq<char>>, World) {
    let (described, w1) = metadata_written(w, within(root, ".nv-metadata"@), record);
    match described {
        Err(message) => (Err(message), w1),
        Ok(()) => release_placed(w1, paths, root, place),
    }
}

/// What is done to move a release to its place.
pub open spec fn placing_deeds(w: World, paths: Places, root: Seq<u8>, place: Seq<u8>) -> Seq<Deed> {
    let (stored, w1) = synced(w, root);
    seq![Deed::SyncDirectory(root)] + match stored {
        Err(_) => seq![],
        Ok(()) => seq![Deed::Rename(root, place)] + match w1.attempt(
            Deed::Rename(root, place),
        ).0 {
            Err(_) => seq![],
            Ok(()) => seq![Deed::SyncDirectory(paths.installs)],
        },
    }
}

/// What is done to describe a release and to move it to its place.
pub open spec fn publication_deeds(
    w: World,
    paths: Places,
    root: Seq<u8>,
    place: Seq<u8>,
    record: Record,
) -> Seq<Deed> {
    let metadata = within(root, ".nv-metadata"@);
    let (described, w1) = metadata_written(w, metadata, record);
    description_deeds(w, metadata, record) + match described {
        Err(_) => seq![],
        Ok(()) => placing_deeds(w1, paths, root, place),
    }
}

fn publish_release(
    session: &mut Session,
    paths: &Paths,
    root: &UnixPath,
    place: &UnixPath,
    metadata: &InstallMetadata,
) -> (done: Result<(), Stop>)
    ensures
        ran(
            *old(session),
            *final(session),
            told(done),
            publication_deeds(old(session).world(), paths@, root@, place@, metadata@),
            release_published(old(session).world(), paths@, root@, place@, metadata@),
        ),
{
    proof {
        reveal(release_published);
    }
    write_metadata(session, &root.join(".nv-metadata"), metadata)?;
    sync_directory(session, root)?;
    match session.attempt(Action::Rename(root.copy(), place.copy()))? {
        Attempt::Done(_) => {},
        Attempt::Failed(cause) => return Err(
            failed(
                "failed to publish staged installation ".to_owned().concat(
                    root.display().as_str(),
                ).concat(" as ").concat(place.display().as_str()).concat(": ").concat(
                    cause.as_str(),
                ),
            ),
        ),
    }
    sync_directory(session, &paths.installs)
}

/// The description of a release that was offered and reports its version.
pub open spec fn record_of(channel: Channel, offer: Offer, version: Seq<char>) -> Record {
    Record { channel, release: offer.id, version, asset: ASSET_NAME@, sha256: offer.sha256 }
}

/// Downloads a release and moves it to its place.
#[verifier::opaque]
pub open spec fn release_added(
    w: World,
    paths: Places,
    setting: Setting,
    channel: Channel,
    offer: Offer,
    staging: Seq<u8>,
) -> (Result<Record, Seq<char>>, World) {
    let archive = within(staging, ASSET_NAME@ + ".part"@);
    let (fetched, w1) = archive_fetched(w, setting, offer, archive);
    match fetched {
        Err(message) => (Err(message), w1),
        Ok(()) => {
            let (staged, w2) = release_staged(w1, archive, within(staging, "extracted"@));
            match staged {
                Err(message) => (Err(message), w2),
                Ok((root, version)) => {
                    let record = record_of(channel, offer, version);
                    let place = paths.install_of(channel, offer.id);
                    let (published, w3) = release_published(w2, paths, root, place, record);
                    match published {
                        Err(message) => (Err(message), w3),
                        Ok(()) => (Ok(record), w3),
                    }
                },
            }
        },
    }
}

/// What is done for that.
#[verifier::opaque]
pub open spec fn adding_deeds(
    w: World,
    paths: Places,
    setting: Setting,
    channel: Channel,
    offer: Offer,
    staging: Seq<u8>,
) -> Seq<Deed> {
    let archive = within(staging, ASSET_NAME@ + ".part"@);
    let extraction = within(staging, "extracted"@);
    let place = paths.install_of(channel, offer.id);
    let (fetched, w1) = archive_fetched(w, setting, offer, archive);
    let (staged, w2) = release_staged(w1, archive, extraction);
    fetching_deeds(w, setting, offer, archive) + match fetched {
        Err(_) => seq![],
        Ok(()) => extraction_deeds(w1, archive, extraction) + match staged {
            Err(_) => seq![],
            Ok((root, version)) => publication_deeds(
                w2,
                paths,
                root,
                place,
                record_of(channel, offer, version),
            ),
        },
    }
}

fn add_release(
    session: &mut Session,
    paths: &Paths,
    setting: &Setting,
    channel: Channel,
    release: &RemoteRelease,
    staging: &UnixPath,
) -> (done: Result<InstallMetadata, Stop>)
    ensures
        ran(
            *old(session),
            *final(session),
            told(done),
            adding_deeds(
                old(session).world(),
                paths@,
                *setting,
                channel,
                release.deep_view(),
                staging@,
            ),
            release_added(
                old(session).world(),
                paths@,
                *setting,
                channel,
                release.deep_view(),
                staging@,
            ),
        ),
{
    proof {
        reveal(release_added);
        reveal(adding_deeds);
    }
    let archive = staging.join(ASSET_NAME.to_owned().concat(".part").as_str());
    fetch_archive(session, setting, release, &archive)?;
    let (root, version) = stage_release(session, &archive, &staging.join("extracted"))?;
    let metadata = InstallMetadata {
        channel,
        release: release.id.clone(),
        version,
        asset: ASSET_NAME.to_owned(),
        sha256: release.sha256.clone(),
    };
    let place = paths.install_dir(channel, release.id.as_str());
    publish_release(session, paths, &root, &place, &metadata)?;
    Ok(metadata)
}

/// The offered release in its place: the one that is there, if it is the same, or else one that is
/// downloaded.
#[verifier::opaque]
pub open spec fn release_obtained(
    w: World,
    paths: Places,
    setting: Setting,
    channel: Channel,
    offer: Offer,
    staging: Seq<u8>,
) -> (Result<Record, Seq<char>>, World) {
    let place = paths.install_of(channel, offer.id);
    match w.sight(place) {
        Sight::Present(_) => match installation_at(w, paths, place, Some(channel)) {
            Err(message) => (Err(message), w),
            Ok(record) => if record.release != offer.id || record.sha256 != offer.sha256 {
                (
                    Err(
                        "immutable installation path "@ + shown(place) + " conflicts with release "@
                            + offer.id + "; inspect it manually"@,
                    ),
                    w,
                )
            } else {
                (Ok(record), w)
            },
        },
        Sight::Absent(_) => release_added(w, paths, setting, channel, offer, staging),
        Sight::Failed(cause) => (
            Err("failed to inspect immutable installation path "@ + shown(place) + ": "@ + cause),
            w,
        ),
    }
}

/// What is done for that.
#[verifier::opaque]
pub open spec fn obtaining_deeds(
    w: World,
    paths: Places,
    setting: Setting,
    channel: Channel,
    offer: Offer,
    staging: Seq<u8>,
) -> Seq<Deed> {
    let place = paths.install_of(channel, offer.id);
    seq![Deed::Inspect(place)] + match w.sight(place) {
        Sight::Present(_) => installation_deeds(w, paths, place, Some(channel)),
        Sight::Absent(_) => adding_deeds(w, paths, setting, channel, offer, staging),
        Sight::Failed(_) => seq![],
    }
}

fn obtain_release(
    session: &mut Session,
    paths: &Paths,
    setting: &Setting,
    channel: Channel,
    release: &RemoteRelease,
    staging: &UnixPath,
) -> (done: Result<InstallMetadata, Stop>)
    ensures
        ran(
            *old(session),
            *final(session),
            told(done),
            obtaining_deeds(
                old(session).world(),
                paths@,
                *setting,
                channel,
                release.deep_view(),
                staging@,
            ),
            release_obtained(
                old(session).world(),
                paths@,
                *setting,
                channel,
                release.deep_view(),
                staging@,
            ),
        ),
{
    proof {
        reveal(release_obtained);
        reveal(obtaining_deeds);
    }
    let place = paths.install_dir(channel, release.id.as_str());
    match session.inspect(&place)? {
        Lookup::Present(_) => {
            let metadata = read_installation(session, paths, &place, Some(channel))?;
            if !same(metadata.release.as_str(), release.id.as_str()) || !same(
                metadata.sha256.as_str(),
                release.sha256.as_str(),
            ) {
                return Err(
                    failed(
                        "immutable installation path ".to_owned().concat(
                            place.display().as_str(),
                        ).concat(" conflicts with release ").concat(release.id.as_str()).concat(
                            "; inspect it manually",
                        ),
                    ),
                );
            }
            Ok(metadata)
        },
        Lookup::Absent(_) => add_release(session, paths, setting, channel, release, staging),
        Lookup::Failed(cause) => Err(
            failed(
                "failed to inspect immutable installation path ".to_owned().concat(
                    place.display().as_str(),
                ).concat(": ").concat(cause.as_str()),
            ),
        ),
    }
}

/// Whether an installed release is the offered one.
pub open spec fn is_offered(installed: Option<Installed>, offer: Offer) -> bool {
    installed matches Some(installed) && installed.record.release == offer.id
        && installed.record.sha256 == offer.sha256
}

/// A line that names an installed release.
pub open spec fn release_line(
    channel: Channel,
    saying: Seq<char>,
    version: Seq<char>,
    release: Seq<char>,
) -> Seq<char> {
    channel.name() + saying + version + " (release "@ + release + ")"@
}

fn line_of_release(channel: Channel, saying: &str, metadata: &InstallMetadata) -> (line: String)
    ensures
        line@ == release_line(channel, saying@, metadata@.version, metadata@.release),
{
    channel.as_str().to_owned().concat(saying).concat(metadata.version.as_str()).concat(
        " (release ",
    ).concat(metadata.release.as_str()).concat(")")
}

/// Lets a channel, which selects `had`, select another release. The result is that release.
#[verifier::opaque]
pub open spec fn release_taken(
    w: World,
    paths: Places,
    setting: Setting,
    channel: Channel,
    had: Option<Installed>,
    offer: Offer,
    staging: Seq<u8>,
) -> (Result<Option<Record>, Seq<char>>, World) {
    let (obtained, w1) = release_obtained(w, paths, setting, channel, offer, staging);
    match obtained {
        Err(message) => (Err(message), w1),
        Ok(record) => {
            let (committed, w2) = change_committed(w1, paths, replacement(channel, had, record));
            match committed {
                Err(message) => (Err(message), w2),
                Ok(()) => (Ok(Some(record)), w2),
            }
        },
    }
}

/// What is done for that.
#[verifier::opaque]
pub open spec fn taking_deeds(
    w: World,
    paths: Places,
    setting: Setting,
    channel: Channel,
    had: Option<Installed>,
    offer: Offer,
    staging: Seq<u8>,
) -> Seq<Deed> {
    let (obtained, w1) = release_obtained(w, paths, setting, channel, offer, staging);
    obtaining_deeds(w, paths, setting, channel, offer, staging) + match obtained {
        Err(_) => seq![],
        Ok(record) => committing_deeds(w1, paths, replacement(channel, had, record)),
    }
}

fn take_release(
    session: &mut Session,
    paths: &Paths,
    setting: &Setting,
    channel: Channel,
    had: &Option<Installation>,
    release: &RemoteRelease,
    staging: &UnixPath,
) -> (done: Result<Option<InstallMetadata>, Stop>)
    ensures
        ran(
            *old(session),
            *final(session),
            told(done),
            taking_deeds(
                old(session).world(),
                paths@,
                *setting,
                channel,
                had.deep_view(),
                release.deep_view(),
                staging@,
            ),
            release_taken(
                old(session).world(),
                paths@,
                *setting,
                channel,
                had.deep_view(),
                release.deep_view(),
                staging@,
            ),
        ),
{
    proof {
        reveal(release_taken);
        reveal(taking_deeds);
    }
    let metadata = obtain_release(session, paths, setting, channel, release, staging)?;
    replace_channel_pointers(session, paths, channel, had, &metadata)?;
    Ok(Some(metadata))
}

/// Lets a channel select the release that it offers, unless it selects it already. The result is
/// the release that was selected anew.
#[verifier::opaque]
pub open spec fn release_selected(
    w: World,
    paths: Places,
    setting: Setting,
    channel: Channel,
    had: Option<Installed>,
    staging: Seq<u8>,
) -> (Result<Option<Record>, Seq<char>>, World) {
    let (resolved, w1) = offer_resolved(w, setting, channel, staging);
    match resolved {
        Err(message) => (Err(message), w1),
        Ok(offer) => if is_offered(had, offer) {
            let record = had->0.record;
            let (said, w2) = printed(
                w1,
                release_line(channel, " is already current: "@, record.version, record.release),
            );
            match said {
                Err(message) => (Err(message), w2),
                Ok(()) => (Ok(None), w2),
            }
        } else {
            release_taken(w1, paths, setting, channel, had, offer, staging)
        },
    }
}

/// What is done for that.
#[verifier::opaque]
pub open spec fn choosing_deeds(
    w: World,
    paths: Places,
    setting: Setting,
    channel: Channel,
    had: Option<Installed>,
    staging: Seq<u8>,
) -> Seq<Deed> {
    let (resolved, w1) = offer_resolved(w, setting, channel, staging);
    offer_deeds(w, setting, channel, staging) + match resolved {
        Err(_) => seq![],
        Ok(offer) => if is_offered(had, offer) {
            let record = had->0.record;
            seq![
                Deed::Print(
                    release_line(channel, " is already current: "@, record.version, record.release),
                ),
            ]
        } else {
            taking_deeds(w1, paths, setting, channel, had, offer, staging)
        },
    }
}

fn select_release(
    session: &mut Session,
    paths: &Paths,
    setting: &Setting,
    channel: Channel,
    had: &Option<Installation>,
    staging: &UnixPath,
) -> (done: Result<Option<InstallMetadata>, Stop>)
    ensures
        ran(
            *old(session),
            *final(session),
            told(done),
            choosing_deeds(
                old(session).world(),
                paths@,
                *setting,
                channel,
                had.deep_view(),
                staging@,
            ),
            release_selected(
                old(session).world(),
                paths@,
                *setting,
                channel,
                had.deep_view(),
                staging@,
            ),
        ),
{
    proof {
        reveal(release_selected);
        reveal(choosing_deeds);
    }
    let release = resolve_release(session, setting, channel, staging)?;
    match had {
        Some(current) => {
            if same(current.metadata.release.as_str(), release.id.as_str()) && same(
                current.metadata.sha256.as_str(),
                release.sha256.as_str(),
            ) {
                print(
                    session,
                    line_of_release(channel, " is already current: ", &current.metadata),
                )?;
                return Ok(None);
            }
        },
        None => {},
    }
    take_release(session, paths, setting, channel, had, &release, staging)
}

/// The end of an installation that has taken effect: what is no longer needed is removed, and a
/// failure to remove it is only reported.
#[verifier::opaque]
pub open spec fn install_concluded(
    w: World,
    paths: Places,
    channel: Channel,
    record: Record,
    staging: Seq<u8>,
) -> (Result<(), Seq<char>>, World) {
    let (cleaned, w1) = installs_cleaned(w, paths);
    let w2 = match cleaned {
        Ok(()) => w1,
        Err(message) => warned(
            w1,
            "nv: warning: installation committed, but cleanup failed: "@ + message,
        ).1,
    };
    let (finished, w3) = staging_finished(w2, staging);
    let w4 = match finished {
        Ok(()) => w3,
        Err(message) => warned(
            w3,
            "nv: warning: installation committed, but staging cleanup failed: "@ + message,
        ).1,
    };
    printed(
        w4,
        "installed "@ + channel.name() + " "@ + record.version + " (release "@ + record.release
            + ")"@,
    )
}

/// What is done in the end if a removal failed with `outcome`.
pub open spec fn warning_deeds(saying: Seq<char>, outcome: Result<(), Seq<char>>) -> Seq<Deed> {
    match outcome {
        Ok(()) => seq![],
        Err(message) => seq![Deed::Warn(saying + message)],
    }
}

/// What is done at the end of an installation that has taken effect.
#[verifier::opaque]
pub open spec fn conclusion_deeds(
    w: World,
    paths: Places,
    channel: Channel,
    record: Record,
    staging: Seq<u8>,
) -> Seq<Deed> {
    let unclean = "nv: warning: installation committed, but cleanup failed: "@;
    let unfinished = "nv: warning: installation committed, but staging cleanup failed: "@;
    let (cleaned, w1) = installs_cleaned(w, paths);
    let w2 = match cleaned {
        Ok(()) => w1,
        Err(message) => warned(w1, unclean + message).1,
    };
    let finished = staging_finished(w2, staging).0;
    cleanup_deeds(w, paths) + (warning_deeds(unclean, cleaned) + (finish_deeds(w2, staging) + (
    warning_deeds(unfinished, finished) + seq![
        Deed::Print(
            "installed "@ + channel.name() + " "@ + record.version + " (release "@ + record.release
                + ")"@,
        ),
    ])))
}

#[verifier::rlimit(40)]
fn conclude_install(
    session: &mut Session,
    paths: &Paths,
    channel: Channel,
    metadata: &InstallMetadata,
    staging: StagingGuard,
) -> (done: Result<(), Stop>)
    ensures
        ran(
            *old(session),
            *final(session),
            told(done),
            conclusion_deeds(
                old(session).world(),
                paths@,
                channel,
                metadata@,
                staging.path@,
            ),
            install_concluded(
                old(session).world(),
                paths@,
                channel,
                metadata@,
                staging.path@,
            ),
        ),
{
    proof {
        reveal(install_concluded);
        reveal(conclusion_deeds);
    }
    match cleanup_unreferenced_installs(session, paths) {
        Ok(_) => {},
        Err(Stop::Waiting) => return Err(Stop::Waiting),
        Err(Stop::Failed(cause)) => {
            warn(
                session,
                "nv: warning: installation committed, but cleanup failed: ".to_owned().concat(
                    cause.message(),
                ),
            )?;
        },
    }
    match staging.finish(session) {
        Ok(_) => {},
        Err(Stop::Waiting) => return Err(Stop::Waiting),
        Err(Stop::Failed(cause)) => {
            warn(
                session,
                "nv: warning: installation committed, but staging cleanup failed: ".to_owned().concat(
                cause.message()),
            )?;
        },
    }
    print(
        session,
        "installed ".to_owned().concat(channel.as_str()).concat(" ").concat(
            metadata.version.as_str(),
        ).concat(" (release ").concat(metadata.release.as_str()).concat(")"),
    )
}

/// Lets a channel, which selects `had`, select the release that it offers, with the help of a
/// staging directory that is removed in the end.
pub open spec fn release_renewed(
    w: World,
    paths: Places,
    setting: Setting,
    channel: Channel,
    had: Option<Installed>,
    staging: Seq<u8>,
) -> (Result<(), Seq<char>>, World) {
    let (selected, w1) = release_selected(w, paths, setting, channel, had, staging);
    match selected {
        Err(message) => (Err(message), staging_removed(w1, staging).1),
        Ok(None) => staging_finished(w1, staging),
        Ok(Some(record)) => install_concluded(w1, paths, channel, record, staging),
    }
}

/// Installs the release that a channel offers, unless the channel selects it already.
pub open spec fn channel_installed(w: World, paths: Places, setting: Setting, channel: Channel) -> (
    Result<(), Seq<char>>,
    World,
) {
    match state_of(w, paths, channel) {
        Err(message) => (Err(message), w),
        Ok(selected) => {
            let (created, w1) = staging_created(w, paths, channel, setting.process);
            match created {
                Err(message) => (Err(message), w1),
                Ok(staging) => release_renewed(
                    w1,
                    paths,
                    setting,
                    channel,
                    selected.current,
                    staging,
                ),
            }
        },
    }
}

/// What is done to let a channel select the release that it offers, with a staging directory.
#[verifier::opaque]
pub open spec fn renewal_deeds(
    w: World,
    paths: Places,
    setting: Setting,
    channel: Channel,
    had: Option<Installed>,
    staging: Seq<u8>,
) -> Seq<Deed> {
    let (selected, w1) = release_selected(w, paths, setting, channel, had, staging);
    choosing_deeds(w, paths, setting, channel, had, staging) + match selected {
        Err(_) => removal_deeds(staging),
        Ok(None) => finish_deeds(w1, staging),
        Ok(Some(record)) => conclusion_deeds(w1, paths, channel, record, staging),
    }
}

fn renew_release(
    session: &mut Session,
    paths: &Paths,
    setting: &Setting,
    channel: Channel,
    had: &Option<Installation>,
    staging: StagingGuard,
) -> (done: Result<(), Stop>)
    ensures
        ran(
            *old(session),
            *final(session),
            told(done),
            renewal_deeds(
                old(session).world(),
                paths@,
                *setting,
                channel,
                had.deep_view(),
                staging.path@,
            ),
            release_renewed(
                old(session).world(),
                paths@,
                *setting,
                channel,
                had.deep_view(),
                staging.path@,
            ),
        ),
{
    proof {
        reveal(renewal_deeds);
    }
    match select_release(session, paths, setting, channel, had, &staging.path) {
        Ok(Some(metadata)) => conclude_install(session, paths, channel, &metadata, staging),
        Ok(None) => staging.finish(session),
        Err(Stop::Waiting) => Err(Stop::Waiting),
        Err(Stop::Failed(cause)) => {
            staging.abandon(session)?;
            Err(Stop::Failed(cause))
        },
    }
}

/// What is done to install the release that a channel offers.
#[verifier::opaque]
pub open spec fn install_deeds(w: World, paths: Places, setting: Setting, channel: Channel) -> Seq<
    Deed,
> {
    state_deeds(w, paths, channel) + match state_of(w, paths, channel) {
        Err(_) => seq![],
        Ok(selected) => {
            let (created, w1) = staging_created(w, paths, channel, setting.process);
            creation_deeds(w, paths, channel, setting.process) + match created {
                Err(_) => seq![],
                Ok(staging) => renewal_deeds(
                    w1,
                    paths,
                    setting,
                    channel,
                    selected.current,
                    staging,
                ),
            }
        },
    }
}

/// Installs the release that a channel offers, unless the channel selects it already.
pub fn install_channel(session: &mut Session, paths: &Paths, setting: &Setting, channel: Channel) -> (done:
    Result<(), Stop>)
    ensures
        ran(
            *old(session),
            *final(session),
            told(done),
            install_deeds(old(session).world(), paths@, *setting, channel),
            channel_installed(old(session).world(), paths@, *setting, channel),
        ),
{
    proof {
        reveal(install_deeds);
    }
    let state = read_channel_state(session, paths, channel)?;
    let staging = StagingGuard::create(session, paths, channel, setting.process)?;
    renew_release(session, paths, setting, channel, &state.current, staging)
}

/// Installs the release that a channel offers if no release of the channel is installed.
pub open spec fn missing_installed(w: World, paths: Places, setting: Setting, channel: Channel) -> (
    Result<(), Seq<char>>,
    World,
) {
    match state_of(w, paths, channel) {
        Err(message) => (Err(message), w),
        Ok(selected) => match selected.current {
            Some(current) => printed(
                w,
                release_line(
                    channel,
                    " is already installed: "@,
                    current.record.version,
                    current.record.release,
                ),
            ),
            None => channel_installed(w, paths, setting, channel),
        },
    }
}

/// What is done for that.
#[verifier::opaque]
pub open spec fn missing_deeds(w: World, paths: Places, setting: Setting, channel: Channel) -> Seq<
    Deed,
> {
    state_deeds(w, paths, channel) + match state_of(w, paths, channel) {
        Err(_) => seq![],
        Ok(selected) => match selected.current {
            Some(current) => seq![
                Deed::Print(
                    release_line(
                        channel,
                        " is already installed: "@,
                        current.record.version,
                        current.record.release,
                    ),
                ),
            ],
            None => install_deeds(w, paths, setting, channel),
        },
    }
}

/// Installs the release that a channel offers if no release of the channel is installed.
pub fn install_missing(session: &mut Session, paths: &Paths, setting: &Setting, channel: Channel) -> (done:
    Result<(), Stop>)
    ensures
        ran(
            *old(session),
            *final(session),
            told(done),
            missing_deeds(old(session).world(), paths@, *setting, channel),
            missing_installed(old(session).world(), paths@, *setting, channel),
        ),
{
    proof {
        reveal(missing_deeds);
    }
    match &read_channel_state(session, paths, channel)?.current {
        Some(current) => print(
            session,
            line_of_release(channel, " is already installed: ", &current.metadata),
        ),
        None => install_channel(session, paths, setting, channel),
    }
}

} // verus!
