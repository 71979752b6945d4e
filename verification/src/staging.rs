//! The directory in which a release is put together before it is installed.

use vstd::prelude::*;
use vstd::utf8::encode_utf8;

use crate::channel::Channel;
use crate::encoding::{encode, same_bytes};
use crate::host::{
    failed, group_walked, ran, told, Action, Attempt, Creation, Deed, Listing, Making, Names,
    Session, Stop, World,
};
use crate::metadata::{record_text, InstallMetadata, Record};
use crate::path::{has_parent, parent_name, shown, UnixPath};
use crate::paths::{within, Paths, Places};
use crate::text::{decimal, decimal_of};

verus! {

broadcast use group_walked;

/// A directory in which a release is put together.
#[derive(Debug)]
pub struct StagingGuard {
    pub path: UnixPath,
}

impl DeepView for StagingGuard {
    type V = Seq<u8>;

    open spec fn deep_view(&self) -> Seq<u8> {
        self.path@
    }
}

/// Removes a staging directory with what is in it, and no other directory.
pub open spec fn staging_removed(w: World, path: Seq<u8>) -> (Result<(), Seq<char>>, World) {
    if !has_parent(path) {
        (Err("refusing to clean staging path without parent: "@ + shown(path)), w)
    } else if parent_name(path) != Some(encode_utf8("staging"@)) {
        (Err("refusing to clean unmanaged staging path "@ + shown(path)), w)
    } else {
        let (removed, after) = w.attempt(Deed::RemoveTree(path));
        match removed {
            Ok(()) => (Ok(()), after),
            Err(cause) => (
                Err("failed to remove staging directory "@ + shown(path) + ": "@ + cause),
                after,
            ),
        }
    }
}

/// What is done for that.
pub open spec fn removal_deeds(path: Seq<u8>) -> Seq<Deed> {
    if has_parent(path) && parent_name(path) == Some(encode_utf8("staging"@)) {
        seq![Deed::RemoveTree(path)]
    } else {
        seq![]
    }
}

/// Removes a staging directory with what is in it, and no other directory.
pub fn remove_staging_directory(session: &mut Session, path: &UnixPath) -> (done: Result<(), Stop>)
    ensures
        ran(
            *old(session),
            *final(session),
            told(done),
            removal_deeds(path@),
            staging_removed(old(session).world(), path@),
        ),
{
    let (placed, parent) = path.parent();
    if !placed {
        return Err(
            failed(
                "refusing to clean staging path without parent: ".to_owned().concat(
                    path.display().as_str(),
                ),
            ),
        );
    }
    let managed: bool = match &parent {
        Some(name) => same_bytes(name, &encode("staging")),
        None => false,
    };
    if !managed {
        return Err(
            failed(
                "refusing to clean unmanaged staging path ".to_owned().concat(
                    path.display().as_str(),
                ),
            ),
        );
    }
    match session.attempt(Action::RemoveTree(path.copy()))? {
        Attempt::Done(_) => Ok(()),
        Attempt::Failed(cause) => Err(
            failed(
                "failed to remove staging directory ".to_owned().concat(
                    path.display().as_str(),
                ).concat(": ").concat(cause.as_str()),
            ),
        ),
    }
}

/// The name of a staging directory that a process makes for a channel at some time.
pub open spec fn staging_name(channel: Channel, process: u32, time: u128) -> Seq<char> {
    channel.name() + "-"@ + decimal(process as nat) + "-"@ + decimal(time as nat)
}

/// Makes the directory at `path` for staging.
pub open spec fn staging_made(w: World, path: Seq<u8>) -> (Result<Seq<u8>, Seq<char>>, World) {
    let (made, after) = w.attempt(Deed::MakeDirectory(path));
    match made {
        Err(cause) => (
            Err("failed to create staging directory "@ + shown(path) + ": "@ + cause),
            after,
        ),
        Ok(()) => (Ok(path), after),
    }
}

/// Makes a staging directory, unless there is one already.
pub open spec fn staging_created(w: World, paths: Places, channel: Channel, process: u32) -> (
    Result<Seq<u8>, Seq<char>>,
    World,
) {
    let occupied = "staging directory "@ + shown(paths.staging)
        + " is not empty; inspect its contents and move stale data to the trash manually"@;
    match w.listing(paths.staging) {
        Names::Unreadable(cause) => (
            Err(
                "failed to inspect staging directory "@ + shown(paths.staging) + ": "@ + cause,
            ),
            w,
        ),
        Names::Broken(_) => (Err(occupied), w),
        Names::Names(names) => if names.len() > 0 {
            (Err(occupied), w)
        } else {
            let (time, w1) = w.time();
            match time {
                Err(cause) => (Err("system clock is before Unix epoch: "@ + cause), w1),
                Ok(time) => staging_made(
                    w1,
                    within(paths.staging, staging_name(channel, process, time)),
                ),
            }
        },
    }
}

/// What is done to make a staging directory.
pub open spec fn creation_deeds(w: World, paths: Places, channel: Channel, process: u32) -> Seq<
    Deed,
> {
    seq![Deed::List(paths.staging)] + match w.listing(paths.staging) {
        Names::Names(names) => if names.len() > 0 {
            seq![]
        } else {
            seq![Deed::Clock] + match w.time().0 {
                Err(_) => seq![],
                Ok(time) => seq![
                    Deed::MakeDirectory(
                        within(paths.staging, staging_name(channel, process, time)),
                    ),
                ],
            }
        },
        _ => seq![],
    }
}

/// Removes a staging directory; one that cannot be removed is tried once more.
pub open spec fn staging_finished(w: World, path: Seq<u8>) -> (Result<(), Seq<char>>, World) {
    let (removed, w1) = staging_removed(w, path);
    match removed {
        Ok(()) => (Ok(()), w1),
        Err(message) => (Err(message), staging_removed(w1, path).1),
    }
}

/// What is done to remove a staging directory, once more if it cannot be removed.
pub open spec fn finish_deeds(w: World, path: Seq<u8>) -> Seq<Deed> {
    removal_deeds(path) + match staging_removed(w, path).0 {
        Ok(()) => seq![],
        Err(_) => removal_deeds(path),
    }
}

impl StagingGuard {
    /// Makes a staging directory for a channel, unless there is one already.
    pub fn create(session: &mut Session, paths: &Paths, channel: Channel, process: u32) -> (done:
        Result<StagingGuard, Stop>)
        ensures
            ran(
                *old(session),
                *final(session),
                told(done),
                creation_deeds(old(session).world(), paths@, channel, process),
                staging_created(old(session).world(), paths@, channel, process),
            ),
    {
        let occupied: bool = match session.list(&paths.staging)? {
            Listing::Names(names) => {
                assert(names.deep_view().len() == names.len());
                names.len() > 0
            },
            Listing::Broken(_) => true,
            Listing::Unreadable(cause) => return Err(
                failed(
                    "failed to inspect staging directory ".to_owned().concat(
                        paths.staging.display().as_str(),
                    ).concat(": ").concat(cause.as_str()),
                ),
            ),
        };
        if occupied {
            return Err(
                failed(
                    "staging directory ".to_owned().concat(
                        paths.staging.display().as_str(),
                    ).concat(
                        " is not empty; inspect its contents and move stale data to the trash manually",
                    ),
                ),
            );
        }
        let time: u128 = match session.clock()? {
            Attempt::Done(time) => time,
            Attempt::Failed(cause) => return Err(
                failed("system clock is before Unix epoch: ".to_owned().concat(cause.as_str())),
            ),
        };
        let path = paths.staging.join(
            channel.as_str().to_owned().concat("-").concat(
                decimal_of(process as u128).as_str(),
            ).concat("-").concat(decimal_of(time).as_str()).as_str(),
        );
        match session.attempt(Action::MakeDirectory(path.copy()))? {
            Attempt::Done(_) => Ok(StagingGuard { path }),
            Attempt::Failed(cause) => Err(
                failed(
                    "failed to create staging directory ".to_owned().concat(
                        path.display().as_str(),
                    ).concat(": ").concat(cause.as_str()),
                ),
            ),
        }
    }

    /// Removes the directory; one that cannot be removed is tried once more.
    pub fn finish(self, session: &mut Session) -> (done: Result<(), Stop>)
        ensures
            ran(
                *old(session),
                *final(session),
                told(done),
                finish_deeds(old(session).world(), self.path@),
                staging_finished(old(session).world(), self.path@),
            ),
    {
        match remove_staging_directory(session, &self.path) {
            Ok(_) => Ok(()),
            Err(Stop::Waiting) => Err(Stop::Waiting),
            Err(Stop::Failed(cause)) => {
                self.abandon(session)?;
                Err(Stop::Failed(cause))
            },
        }
    }

    /// Removes the directory, as far as that is possible.
    pub fn abandon(self, session: &mut Session) -> (done: Result<(), Stop>)
        ensures
            ran(
                *old(session),
                *final(session),
                told(done),
                removal_deeds(self.path@),
                (
                    Ok::<(), Seq<char>>(()),
                    staging_removed(old(session).world(), self.path@).1,
                ),
            ),
    {
        match remove_staging_directory(session, &self.path) {
            Err(Stop::Waiting) => Err(Stop::Waiting),
            _ => Ok(()),
        }
    }
}

/// Flushes the file with the description of a release, and brings it to disk.
pub open spec fn metadata_stored(w: World, path: Seq<u8>) -> (Result<(), Seq<char>>, World) {
    let (flushed, w1) = w.attempt(Deed::Flush(path));
    match flushed {
        Err(cause) => (
            Err("failed to flush installation metadata "@ + shown(path) + ": "@ + cause),
            w1,
        ),
        Ok(()) => {
            let (stored, w2) = w1.attempt(Deed::SyncFile(path));
            match stored {
                Err(cause) => (
                    Err("failed to sync installation metadata "@ + shown(path) + ": "@ + cause),
                    w2,
                ),
                Ok(()) => (Ok(()), w2),
            }
        },
    }
}

/// Writes the description of a release to a new file.
pub open spec fn metadata_written(w: World, path: Seq<u8>, record: Record) -> (
    Result<(), Seq<char>>,
    World,
) {
    let (made, w1) = w.create(path);
    match made {
        Making::Exists(cause) | Making::Failed(cause) => (
            Err("failed to create installation metadata "@ + shown(path) + ": "@ + cause),
            w1,
        ),
        Making::Created => {
            let (written, w2) = w1.attempt(Deed::Write(path, record_text(record)));
            match written {
                Err(cause) => (
                    Err("failed to write installation metadata "@ + shown(path) + ": "@ + cause),
                    w2,
                ),
                Ok(()) => metadata_stored(w2, path),
            }
        },
    }
}

/// What is done to write the description of a release.
pub open spec fn description_deeds(w: World, path: Seq<u8>, record: Record) -> Seq<Deed> {
    let write = Deed::Write(path, record_text(record));
    let (made, w1) = w.create(path);
    seq![Deed::CreateNew(path)] + if made is Created {
        let (written, w2) = w1.attempt(write);
        seq![write] + match written {
            Err(_) => seq![],
            Ok(()) => seq![Deed::Flush(path)] + match w2.attempt(Deed::Flush(path)).0 {
                Err(_) => seq![],
                Ok(()) => seq![Deed::SyncFile(path)],
            },
        }
    } else {
        seq![]
    }
}

fn unwritten(doing: &str, path: &UnixPath, cause: &str) -> (stop: Stop)
    ensures
        stop matches Stop::Failed(told) && told@ == doing@ + shown(path@) + ": "@ + cause@,
{
    failed(doing.to_owned().concat(path.display().as_str()).concat(": ").concat(cause))
}

/// Writes the description of a release to a new file.
pub fn write_metadata(session: &mut Session, path: &UnixPath, metadata: &InstallMetadata) -> (done:
    Result<(), Stop>)
    ensures
        ran(
            *old(session),
            *final(session),
            told(done),
            description_deeds(old(session).world(), path@, metadata@),
            metadata_written(old(session).world(), path@, metadata@),
        ),
{
    match session.create_new(path)? {
        Creation::Created => {},
        Creation::Exists(cause) | Creation::Failed(cause) => return Err(
            unwritten("failed to create installation metadata ", path, cause.as_str()),
        ),
    }
    match session.attempt(Action::Write(path.copy(), metadata.serialize()))? {
        Attempt::Done(_) => {},
        Attempt::Failed(cause) => return Err(
            unwritten("failed to write installation metadata ", path, cause.as_str()),
        ),
    }
    match session.attempt(Action::Flush(path.copy()))? {
        Attempt::Done(_) => {},
        Attempt::Failed(cause) => return Err(
            unwritten("failed to flush installation metadata ", path, cause.as_str()),
        ),
    }
    match session.attempt(Action::SyncFile(path.copy()))? {
        Attempt::Done(_) => Ok(()),
        Attempt::Failed(cause) => Err(
            unwritten("failed to sync installation metadata ", path, cause.as_str()),
        ),
    }
}

} // verus!
