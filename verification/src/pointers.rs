//! Changes of the links by which a channel selects its releases.
//!
//! A change is noted down in a file before the links are replaced, and the file is removed after
//! that. A change that was interrupted is completed by the next operation.

use vstd::prelude::*;
use vstd::utf8::encode_utf8;

use crate::channel::Channel;
use crate::encoding::{decode, decoded};
use crate::host::{
    failed, group_walked, ran, settled, told, Action, Attempt, Creation, Deed, Entry, Lookup,
    Making, Session, Sight, Stop, World,
};
use crate::installation::{
    installation_at, installation_deeds, read_channel_state, read_installation, state_deeds,
    state_of, Installation, Installed,
};
use crate::layout::{sync_directory, synced};
use crate::metadata::{InstallMetadata, Record};
use crate::path::{last_name, same_path, shown, sibling, UnixPath};
use crate::paths::{channel_relative_target, install_name, link_target, within, Paths, Places};
use crate::transaction::{change_in, change_text, Change, PointerTransaction};

verus! {

broadcast use group_walked;

/// Where the link that is to replace `link`, whose name is `name`, is made.
pub open spec fn link_draft(link: Seq<u8>, name: Seq<char>) -> Seq<u8> {
    sibling(link, encode_utf8("."@ + name + ".nv-new"@))
}

/// Puts the link at `draft` in the place of `link`.
pub open spec fn draft_published(w: World, draft: Seq<u8>, link: Seq<u8>, target: Seq<u8>) -> (
    Result<(), Seq<char>>,
    World,
) {
    let (renamed, w1) = w.attempt(Deed::Rename(draft, link));
    match renamed {
        Ok(()) => (Ok(()), w1),
        Err(cause) => (
            Err(
                "failed to atomically replace symlink "@ + shown(link) + " -> "@ + shown(target)
                    + ": "@ + cause,
            ),
            w1.attempt(Deed::RemoveFile(draft)).1,
        ),
    }
}

/// Makes `link` a symbolic link to `target`, without a moment at which there is no link.
pub open spec fn link_replaced(w: World, link: Seq<u8>, target: Seq<u8>) -> (
    Result<(), Seq<char>>,
    World,
) {
    match link_name(link) {
        None => (Err("invalid symlink path "@ + shown(link)), w),
        Some(name) => {
            let draft = link_draft(link, name);
            match w.sight(draft) {
                Sight::Present(entry) => if entry != Entry::Symlink {
                    (Err(draft_mismatch(draft)), w)
                } else {
                    match w.target(draft) {
                        Err(cause) => (
                            Err(
                                "failed to read temporary symlink "@ + shown(draft) + ": "@ + cause,
                            ),
                            w,
                        ),
                        Ok(found) => if !same_path(found, target) {
                            (Err(draft_mismatch(draft)), w)
                        } else {
                            draft_published(w, draft, link, target)
                        },
                    }
                },
                Sight::Absent(_) => {
                    let (linked, w1) = w.attempt(Deed::Link(target, draft));
                    match linked {
                        Err(cause) => (
                            Err(
                                "failed to create temporary symlink "@ + shown(draft) + " -> "@
                                    + shown(target) + ": "@ + cause,
                            ),
                            w1,
                        ),
                        Ok(()) => draft_published(w1, draft, link, target),
                    }
                },
                Sight::Failed(cause) => (
                    Err("failed to inspect temporary symlink "@ + shown(draft) + ": "@ + cause),
                    w,
                ),
            }
        },
    }
}

/// What is done to put the link at `draft` in the place of `link`.
pub open spec fn publishing_deeds(w: World, draft: Seq<u8>, link: Seq<u8>) -> Seq<Deed> {
    seq![Deed::Rename(draft, link)] + match w.attempt(Deed::Rename(draft, link)).0 {
        Ok(()) => seq![],
        Err(_) => seq![Deed::RemoveFile(draft)],
    }
}

/// What is done to make `link` a symbolic link to `target`.
pub open spec fn replacing_deeds(w: World, link: Seq<u8>, target: Seq<u8>) -> Seq<Deed> {
    match link_name(link) {
        None => seq![],
        Some(name) => {
            let draft = link_draft(link, name);
            seq![Deed::Inspect(draft)] + match w.sight(draft) {
                Sight::Present(Entry::Symlink) => seq![Deed::ReadLink(draft)] + match w.target(
                    draft,
                ) {
                    Ok(found) => if same_path(found, target) {
                        publishing_deeds(w, draft, link)
                    } else {
                        seq![]
                    },
                    Err(_) => seq![],
                },
                Sight::Absent(_) => {
                    let (linked, w1) = w.attempt(Deed::Link(target, draft));
                    seq![Deed::Link(target, draft)] + match linked {
                        Ok(()) => publishing_deeds(w1, draft, link),
                        Err(_) => seq![],
                    }
                },
                _ => seq![],
            }
        },
    }
}

/// The name of a link as text.
pub open spec fn link_name(link: Seq<u8>) -> Option<Seq<char>> {
    match last_name(link) {
        None => None,
        Some(bytes) => match decoded(bytes) {
            Ok(name) => Some(name),
            Err(_) => None,
        },
    }
}

/// Whether `v` is the world at some moment while the link at `draft` is put in the place of `link`.
pub open spec fn publishing(w: World, draft: Seq<u8>, link: Seq<u8>, v: World) -> bool {
    let (renamed, w1) = w.attempt(Deed::Rename(draft, link));
    v == w || (renamed is Err && v == w1)
}

/// Whether `v` is the world at some moment while a link is replaced.
pub open spec fn replacing(w: World, link: Seq<u8>, target: Seq<u8>, v: World) -> bool {
    v == w || match link_name(link) {
        None => false,
        Some(name) => {
            let draft = link_draft(link, name);
            match w.sight(draft) {
                Sight::Present(_) => publishing(w, draft, link, v),
                Sight::Absent(_) => {
                    let (linked, w1) = w.attempt(Deed::Link(target, draft));
                    linked is Ok && publishing(w1, draft, link, v)
                },
                Sight::Failed(_) => false,
            }
        },
    }
}

/// The message for a draft that was made for something else.
pub open spec fn draft_mismatch(draft: Seq<u8>) -> Seq<char> {
    "temporary link "@ + shown(draft) + " does not match the pending transaction"@
}

fn mismatched(draft: &UnixPath) -> (stop: Stop)
    ensures
        stop matches Stop::Failed(cause) && cause@ == draft_mismatch(draft@),
{
    failed(
        "temporary link ".to_owned().concat(draft.display().as_str()).concat(
            " does not match the pending transaction",
        ),
    )
}

/// Makes `link` a symbolic link to `target`, without a moment at which there is no link.
pub fn atomic_symlink_replace(session: &mut Session, link: &UnixPath, target: &UnixPath) -> (done:
    Result<(), Stop>)
    ensures
        ran(
            *old(session),
            *final(session),
            told(done),
            replacing_deeds(old(session).world(), link@, target@),
            link_replaced(old(session).world(), link@, target@),
        ),
        told(done) is None && final(session).faithful() ==> replacing(
            old(session).world(),
            link@,
            target@,
            final(session).world(),
        ),
{
    let name = match link.file_name() {
        None => return Err(
            failed("invalid symlink path ".to_owned().concat(link.display().as_str())),
        ),
        Some(bytes) => match decode(&bytes) {
            Ok(name) => name,
            Err(_) => return Err(
                failed("invalid symlink path ".to_owned().concat(link.display().as_str())),
            ),
        },
    };
    let draft = link.with_file_name(
        ".".to_owned().concat(name.as_str()).concat(".nv-new").as_str(),
    );
    match session.inspect(&draft)? {
        Lookup::Present(Entry::Symlink) => {
            match session.read_link(&draft)? {
                Attempt::Failed(cause) => return Err(
                    failed(
                        "failed to read temporary symlink ".to_owned().concat(
                            draft.display().as_str(),
                        ).concat(": ").concat(cause.as_str()),
                    ),
                ),
                Attempt::Done(found) => {
                    if !found.same_as(target) {
                        return Err(mismatched(&draft));
                    }
                },
            }
        },
        Lookup::Present(_) => return Err(mismatched(&draft)),
        Lookup::Absent(_) => {
            match session.attempt(Action::Link(target.copy(), draft.copy()))? {
                Attempt::Done(_) => {},
                Attempt::Failed(cause) => return Err(
                    failed(
                        "failed to create temporary symlink ".to_owned().concat(
                            draft.display().as_str(),
                        ).concat(" -> ").concat(target.display().as_str()).concat(": ").concat(
                            cause.as_str(),
                        ),
                    ),
                ),
            }
        },
        Lookup::Failed(cause) => return Err(
            failed(
                "failed to inspect temporary symlink ".to_owned().concat(
                    draft.display().as_str(),
                ).concat(": ").concat(cause.as_str()),
            ),
        ),
    }
    match session.attempt(Action::Rename(draft.copy(), link.copy()))? {
        Attempt::Done(_) => Ok(()),
        Attempt::Failed(cause) => {
            session.attempt(Action::RemoveFile(draft.copy()))?;
            Err(
                failed(
                    "failed to atomically replace symlink ".to_owned().concat(
                        link.display().as_str(),
                    ).concat(" -> ").concat(target.display().as_str()).concat(": ").concat(
                        cause.as_str(),
                    ),
                ),
            )
        },
    }
}

/// The file in which a change is written down before it is published.
pub open spec fn transaction_draft(paths: Places) -> Seq<u8> {
    sibling(paths.transaction, encode_utf8(".pointer.transaction.nv-new"@))
}

fn draft_of_transaction(paths: &Paths) -> (path: UnixPath)
    ensures
        path@ == transaction_draft(paths@),
{
    paths.transaction.with_file_name(".pointer.transaction.nv-new")
}

/// The end of a change: its note is removed.
pub open spec fn change_closed(w: World, paths: Places, change: Change) -> (
    Result<(), Seq<char>>,
    World,
) {
    match state_of(w, paths, change.channel) {
        Err(message) => (Err(message), w),
        Ok(_) => {
            let (stored, w1) = synced(w, paths.directory_of(change.channel));
            match stored {
                Err(message) => (Err(message), w1),
                Ok(()) => {
                    let (removed, w2) = w1.attempt(Deed::RemoveFile(paths.transaction));
                    match removed {
                        Err(cause) => (
                            Err(
                                "pointer transaction completed but failed to remove "@ + shown(
                                    paths.transaction,
                                ) + ": "@ + cause,
                            ),
                            w2,
                        ),
                        Ok(()) => synced(w2, paths.state),
                    }
                },
            }
        },
    }
}

/// The second half of a change: the current release is selected.
pub open spec fn current_changed(w: World, paths: Places, change: Change) -> (
    Result<(), Seq<char>>,
    World,
) {
    let (replaced, w1) = link_replaced(
        w,
        paths.link_of(change.channel, "current"@),
        link_target(change.current),
    );
    match replaced {
        Err(message) => (Err(message), w1),
        Ok(()) => change_closed(w1, paths, change),
    }
}

/// Makes a change that has been noted down: first the previous release is selected, then the
/// current one.
pub open spec fn change_finished(w: World, paths: Places, change: Change) -> (
    Result<(), Seq<char>>,
    World,
) {
    let channel = change.channel;
    match installation_at(w, paths, within(paths.installs, change.current), Some(channel)) {
        Err(message) => (Err(message), w),
        Ok(_) => match change.previous {
            Some(previous) => match installation_at(
                w,
                paths,
                within(paths.installs, previous),
                Some(channel),
            ) {
                Err(message) => (Err(message), w),
                Ok(_) => {
                    let (replaced, w1) = link_replaced(
                        w,
                        paths.link_of(channel, "previous"@),
                        link_target(previous),
                    );
                    match replaced {
                        Err(message) => (Err(message), w1),
                        Ok(()) => current_changed(w1, paths, change),
                    }
                },
            },
            None => if w.sight(paths.link_of(channel, "previous"@)) is Present {
                (
                    Err(
                        "pointer transaction expected no previous "@ + channel.name()
                            + " installation"@,
                    ),
                    w,
                )
            } else {
                current_changed(w, paths, change)
            },
        },
    }
}

/// What is done to end a change.
pub open spec fn closing_deeds(w: World, paths: Places, change: Change) -> Seq<Deed> {
    let directory = paths.directory_of(change.channel);
    state_deeds(w, paths, change.channel) + match state_of(w, paths, change.channel) {
        Err(_) => seq![],
        Ok(_) => {
            let (stored, w1) = synced(w, directory);
            seq![Deed::SyncDirectory(directory)] + match stored {
                Err(_) => seq![],
                Ok(()) => seq![Deed::RemoveFile(paths.transaction)] + match w1.attempt(
                    Deed::RemoveFile(paths.transaction),
                ).0 {
                    Err(_) => seq![],
                    Ok(()) => seq![Deed::SyncDirectory(paths.state)],
                },
            }
        },
    }
}

/// What is done for the second half of a change.
pub open spec fn second_half_deeds(w: World, paths: Places, change: Change) -> Seq<Deed> {
    let link = paths.link_of(change.channel, "current"@);
    let (replaced, w1) = link_replaced(w, link, link_target(change.current));
    replacing_deeds(w, link, link_target(change.current)) + match replaced {
        Err(_) => seq![],
        Ok(()) => closing_deeds(w1, paths, change),
    }
}

/// What is done to make a change that has been noted down, whose current release is installed.
pub open spec fn linking_deeds(w: World, paths: Places, change: Change) -> Seq<Deed> {
    let channel = change.channel;
    let link = paths.link_of(channel, "previous"@);
    match change.previous {
        Some(previous) => {
            let path = within(paths.installs, previous);
            installation_deeds(w, paths, path, Some(channel)) + match installation_at(
                w,
                paths,
                path,
                Some(channel),
            ) {
                Err(_) => seq![],
                Ok(_) => {
                    let (replaced, w1) = link_replaced(w, link, link_target(previous));
                    replacing_deeds(w, link, link_target(previous)) + match replaced {
                        Err(_) => seq![],
                        Ok(()) => second_half_deeds(w1, paths, change),
                    }
                },
            }
        },
        None => seq![Deed::Inspect(link)] + if w.sight(link) is Present {
            seq![]
        } else {
            second_half_deeds(w, paths, change)
        },
    }
}

/// What is done to make a change that has been noted down.
pub open spec fn finishing_deeds(w: World, paths: Places, change: Change) -> Seq<Deed> {
    let path = within(paths.installs, change.current);
    installation_deeds(w, paths, path, Some(change.channel)) + match installation_at(
        w,
        paths,
        path,
        Some(change.channel),
    ) {
        Err(_) => seq![],
        Ok(_) => linking_deeds(w, paths, change),
    }
}

/// Whether `v` is the world at some moment while a change comes to its end.
pub open spec fn closing(w: World, paths: Places, change: Change, v: World) -> bool {
    let (stored, w1) = synced(w, paths.directory_of(change.channel));
    let (removed, w2) = w1.attempt(Deed::RemoveFile(paths.transaction));
    v == w || (stored is Ok && (v == w1 || (removed is Ok && v == w2)))
}

/// Whether `v` is the world at some moment while the current release is selected.
pub open spec fn current_changing(w: World, paths: Places, change: Change, v: World) -> bool {
    let link = paths.link_of(change.channel, "current"@);
    let (replaced, w1) = link_replaced(w, link, link_target(change.current));
    replacing(w, link, link_target(change.current), v) || (replaced is Ok && closing(
        w1,
        paths,
        change,
        v,
    ))
}

/// Whether `v` is the world at some moment while a change that has been noted down is made.
pub open spec fn finishing(w: World, paths: Places, change: Change, v: World) -> bool {
    v == w || match change.previous {
        Some(previous) => {
            let link = paths.link_of(change.channel, "previous"@);
            let (replaced, w1) = link_replaced(w, link, link_target(previous));
            replacing(w, link, link_target(previous), v) || (replaced is Ok && current_changing(
                w1,
                paths,
                change,
                v,
            ))
        },
        None => current_changing(w, paths, change, v),
    }
}

fn close_change(session: &mut Session, paths: &Paths, transaction: &PointerTransaction) -> (done:
    Result<(), Stop>)
    ensures
        ran(
            *old(session),
            *final(session),
            told(done),
            closing_deeds(old(session).world(), paths@, transaction@),
            change_closed(old(session).world(), paths@, transaction@),
        ),
        told(done) is None && final(session).faithful() ==> closing(
            old(session).world(),
            paths@,
            transaction@,
            final(session).world(),
        ),
{
    let channel = transaction.channel;
    read_channel_state(session, paths, channel)?;
    sync_directory(session, &paths.channel_dir(channel))?;
    match session.attempt(Action::RemoveFile(paths.transaction.copy()))? {
        Attempt::Done(_) => {},
        Attempt::Failed(cause) => return Err(
            failed(
                "pointer transaction completed but failed to remove ".to_owned().concat(
                    paths.transaction.display().as_str(),
                ).concat(": ").concat(cause.as_str()),
            ),
        ),
    }
    sync_directory(session, &paths.state)
}

fn select_current(session: &mut Session, paths: &Paths, transaction: &PointerTransaction) -> (done:
    Result<(), Stop>)
    ensures
        ran(
            *old(session),
            *final(session),
            told(done),
            second_half_deeds(old(session).world(), paths@, transaction@),
            current_changed(old(session).world(), paths@, transaction@),
        ),
        told(done) is None && final(session).faithful() ==> current_changing(
            old(session).world(),
            paths@,
            transaction@,
            final(session).world(),
        ),
{
    atomic_symlink_replace(
        session,
        &paths.channel_link(transaction.channel, "current"),
        &channel_relative_target(transaction.current.as_str()),
    )?;
    close_change(session, paths, transaction)
}

/// Makes a change that has been noted down.
#[verifier::rlimit(40)]
pub fn finish_pointer_transaction(
    session: &mut Session,
    paths: &Paths,
    transaction: &PointerTransaction,
) -> (done: Result<(), Stop>)
    ensures
        ran(
            *old(session),
            *final(session),
            told(done),
            finishing_deeds(old(session).world(), paths@, transaction@),
            change_finished(old(session).world(), paths@, transaction@),
        ),
        told(done) is None && final(session).faithful() ==> finishing(
            old(session).world(),
            paths@,
            transaction@,
            final(session).world(),
        ),
{
    let channel = transaction.channel;
    let current = paths.installs.join(transaction.current.as_str());
    read_installation(session, paths, &current, Some(channel))?;
    match &transaction.previous {
        Some(previous) => {
            read_installation(
                session,
                paths,
                &paths.installs.join(previous.as_str()),
                Some(channel),
            )?;
            atomic_symlink_replace(
                session,
                &paths.channel_link(channel, "previous"),
                &channel_relative_target(previous.as_str()),
            )?;
        },
        None => {
            match session.inspect(&paths.channel_link(channel, "previous"))? {
                Lookup::Present(_) => return Err(
                    failed(
                        "pointer transaction expected no previous ".to_owned().concat(
                            channel.as_str(),
                        ).concat(" installation"),
                    ),
                ),
                _ => {},
            }
        },
    }
    select_current(session, paths, transaction)
}

/// The note of a change takes effect: from now on the change will be completed.
pub open spec fn note_published(w: World, paths: Places) -> (Result<(), Seq<char>>, World) {
    let (renamed, w1) = w.attempt(Deed::Rename(transaction_draft(paths), paths.transaction));
    match renamed {
        Err(cause) => (
            Err(
                "failed to publish pointer transaction "@ + shown(paths.transaction) + ": "@
                    + cause,
            ),
            w1,
        ),
        Ok(()) => synced(w1, paths.state),
    }
}

/// Writes the note of a change down.
pub open spec fn note_written(w: World, paths: Places, change: Change) -> (
    Result<(), Seq<char>>,
    World,
) {
    let draft = transaction_draft(paths);
    let (made, w1) = w.create(draft);
    match made {
        Making::Exists(cause) | Making::Failed(cause) => (
            Err("failed to create pointer transaction "@ + shown(draft) + ": "@ + cause),
            w1,
        ),
        Making::Created => {
            let (written, w2) = w1.attempt(Deed::Write(draft, change_text(change)));
            match written {
                Err(cause) => (
                    Err("failed to persist pointer transaction "@ + shown(draft) + ": "@ + cause),
                    w2.attempt(Deed::RemoveFile(draft)).1,
                ),
                Ok(()) => {
                    let (stored, w3) = w2.attempt(Deed::SyncFile(draft));
                    match stored {
                        Err(cause) => (
                            Err(
                                "failed to persist pointer transaction "@ + shown(draft) + ": "@
                                    + cause,
                            ),
                            w3.attempt(Deed::RemoveFile(draft)).1,
                        ),
                        Ok(()) => note_published(w3, paths),
                    }
                },
            }
        },
    }
}

/// What is done to note a change down.
pub open spec fn noting_deeds(w: World, paths: Places, change: Change) -> Seq<Deed> {
    let draft = transaction_draft(paths);
    let write = Deed::Write(draft, change_text(change));
    let publish = Deed::Rename(draft, paths.transaction);
    let (made, w1) = w.create(draft);
    seq![Deed::CreateNew(draft)] + if made is Created {
        let (written, w2) = w1.attempt(write);
        seq![write] + match written {
            Err(_) => seq![Deed::RemoveFile(draft)],
            Ok(()) => {
                let (stored, w3) = w2.attempt(Deed::SyncFile(draft));
                seq![Deed::SyncFile(draft)] + match stored {
                    Err(_) => seq![Deed::RemoveFile(draft)],
                    Ok(()) => seq![publish] + match w3.attempt(publish).0 {
                        Err(_) => seq![],
                        Ok(()) => seq![Deed::SyncDirectory(paths.state)],
                    },
                }
            },
        }
    } else {
        seq![]
    }
}

/// Whether `v` is the world at some moment while the note of a change is written down.
pub open spec fn noting(w: World, paths: Places, change: Change, v: World) -> bool {
    let draft = transaction_draft(paths);
    let (made, w1) = w.create(draft);
    let (written, w2) = w1.attempt(Deed::Write(draft, change_text(change)));
    let (stored, w3) = w2.attempt(Deed::SyncFile(draft));
    let (renamed, w4) = w3.attempt(Deed::Rename(draft, paths.transaction));
    v == w || (made is Created && (v == w1 || v == w2 || (written is Ok && (v == w3 || (stored is Ok
        && renamed is Ok && v == w4)))))
}

/// Notes a change down and makes it.
pub open spec fn change_committed(w: World, paths: Places, change: Change) -> (
    Result<(), Seq<char>>,
    World,
) {
    if w.sight(paths.transaction) is Present || w.sight(transaction_draft(paths)) is Present {
        (
            Err(
                "pointer transaction state already exists under "@ + shown(paths.state)
                    + "; inspect it manually"@,
            ),
            w,
        )
    } else {
        let (noted, w1) = note_written(w, paths, change);
        match noted {
            Err(message) => (Err(message), w1),
            Ok(()) => change_finished(w1, paths, change),
        }
    }
}

/// What is done to note a change down and make it, where none is pending.
pub open spec fn change_deeds(w: World, paths: Places, change: Change) -> Seq<Deed> {
    let (noted, w1) = note_written(w, paths, change);
    noting_deeds(w, paths, change) + match noted {
        Err(_) => seq![],
        Ok(()) => finishing_deeds(w1, paths, change),
    }
}

/// What is done to note a change down and make it.
#[verifier::opaque]
pub open spec fn committing_deeds(w: World, paths: Places, change: Change) -> Seq<Deed> {
    let draft = transaction_draft(paths);
    seq![Deed::Inspect(paths.transaction)] + if w.sight(paths.transaction) is Present {
        seq![]
    } else {
        seq![Deed::Inspect(draft)] + if w.sight(draft) is Present {
            seq![]
        } else {
            change_deeds(w, paths, change)
        }
    }
}

/// Whether `v` is the world at some moment while a change is noted down and made.
pub open spec fn committing(w: World, paths: Places, change: Change, v: World) -> bool {
    let (noted, w1) = note_written(w, paths, change);
    noting(w, paths, change, v) || (noted is Ok && finishing(w1, paths, change, v))
}

fn already_pending(paths: &Paths) -> (stop: Stop)
    ensures
        stop matches Stop::Failed(cause) && cause@
            == "pointer transaction state already exists under "@ + shown(paths.state@)
            + "; inspect it manually"@,
{
    failed(
        "pointer transaction state already exists under ".to_owned().concat(
            paths.state.display().as_str(),
        ).concat("; inspect it manually"),
    )
}

fn unpersisted(draft: &UnixPath, cause: &str) -> (stop: Stop)
    ensures
        stop matches Stop::Failed(told) && told@ == "failed to persist pointer transaction "@
            + shown(draft@) + ": "@ + cause@,
{
    failed(
        "failed to persist pointer transaction ".to_owned().concat(
            draft.display().as_str(),
        ).concat(": ").concat(cause),
    )
}

fn note_change(session: &mut Session, paths: &Paths, transaction: &PointerTransaction) -> (done:
    Result<(), Stop>)
    ensures
        ran(
            *old(session),
            *final(session),
            told(done),
            noting_deeds(old(session).world(), paths@, transaction@),
            note_written(old(session).world(), paths@, transaction@),
        ),
        told(done) is None && final(session).faithful() ==> noting(
            old(session).world(),
            paths@,
            transaction@,
            final(session).world(),
        ),
{
    let draft = draft_of_transaction(paths);
    match session.create_new(&draft)? {
        Creation::Created => {},
        Creation::Exists(cause) | Creation::Failed(cause) => return Err(
            failed(
                "failed to create pointer transaction ".to_owned().concat(
                    draft.display().as_str(),
                ).concat(": ").concat(cause.as_str()),
            ),
        ),
    }
    match session.attempt(Action::Write(draft.copy(), transaction.serialize()))? {
        Attempt::Done(_) => {},
        Attempt::Failed(cause) => {
            session.attempt(Action::RemoveFile(draft.copy()))?;
            return Err(unpersisted(&draft, cause.as_str()));
        },
    }
    match session.attempt(Action::SyncFile(draft.copy()))? {
        Attempt::Done(_) => {},
        Attempt::Failed(cause) => {
            session.attempt(Action::RemoveFile(draft.copy()))?;
            return Err(unpersisted(&draft, cause.as_str()));
        },
    }
    match session.attempt(Action::Rename(draft.copy(), paths.transaction.copy()))? {
        Attempt::Done(_) => {},
        Attempt::Failed(cause) => return Err(
            failed(
                "failed to publish pointer transaction ".to_owned().concat(
                    paths.transaction.display().as_str(),
                ).concat(": ").concat(cause.as_str()),
            ),
        ),
    }
    sync_directory(session, &paths.state)
}

/// Notes a change down and makes it.
pub fn commit_pointer_transaction(
    session: &mut Session,
    paths: &Paths,
    transaction: &PointerTransaction,
) -> (done: Result<(), Stop>)
    ensures
        ran(
            *old(session),
            *final(session),
            told(done),
            committing_deeds(old(session).world(), paths@, transaction@),
            change_committed(old(session).world(), paths@, transaction@),
        ),
        told(done) is None && final(session).faithful() ==> committing(
            old(session).world(),
            paths@,
            transaction@,
            final(session).world(),
        ),
{
    proof {
        reveal(committing_deeds);
    }
    let draft = draft_of_transaction(paths);
    match session.inspect(&paths.transaction)? {
        Lookup::Present(_) => return Err(already_pending(paths)),
        _ => {},
    }
    match session.inspect(&draft)? {
        Lookup::Present(_) => return Err(already_pending(paths)),
        _ => {},
    }
    note_change(session, paths, transaction)?;
    finish_pointer_transaction(session, paths, transaction)
}

/// Completes the change in a published note.
pub open spec fn note_followed(w: World, paths: Places) -> (Result<(), Seq<char>>, World) {
    let note = paths.transaction;
    match w.text(note) {
        Err(cause) => (
            Err("failed to read pointer transaction "@ + shown(note) + ": "@ + cause),
            w,
        ),
        Ok(text) => match change_in(text, note) {
            Err(message) => (Err(message), w),
            Ok(change) => change_finished(w, paths, change),
        },
    }
}

/// Completes a change that was interrupted, or drops it if its note was not published.
pub open spec fn change_recovered(w: World, paths: Places) -> (Result<(), Seq<char>>, World) {
    let note = paths.transaction;
    let draft = transaction_draft(paths);
    match w.sight(note) {
        Sight::Failed(cause) => (
            Err("failed to inspect pointer transaction "@ + shown(note) + ": "@ + cause),
            w,
        ),
        Sight::Absent(_) => if w.sight(draft) is Present {
            let (removed, w1) = w.attempt(Deed::RemoveFile(draft));
            match removed {
                Err(cause) => (
                    Err(
                        "failed to remove unpublished pointer transaction "@ + shown(draft) + ": "@
                            + cause,
                    ),
                    w1,
                ),
                Ok(()) => synced(w1, paths.state),
            }
        } else {
            (Ok(()), w)
        },
        Sight::Present(entry) => if !(entry is File) {
            (Err("pointer transaction "@ + shown(note) + " is not a regular file"@), w)
        } else if w.sight(draft) is Present {
            let (removed, w1) = w.attempt(Deed::RemoveFile(draft));
            match removed {
                Err(cause) => (
                    Err(
                        "failed to remove stale pointer transaction "@ + shown(draft) + ": "@
                            + cause,
                    ),
                    w1,
                ),
                Ok(()) => note_followed(w1, paths),
            }
        } else {
            note_followed(w, paths)
        },
    }
}

/// What is done to complete the change in a published note.
pub open spec fn following_deeds(w: World, paths: Places) -> Seq<Deed> {
    let note = paths.transaction;
    seq![Deed::ReadText(note)] + match w.text(note) {
        Err(_) => seq![],
        Ok(text) => match change_in(text, note) {
            Err(_) => seq![],
            Ok(change) => finishing_deeds(w, paths, change),
        },
    }
}

/// What is done to complete a change that was interrupted, or to drop it.
#[verifier::opaque]
pub open spec fn recovery_deeds(w: World, paths: Places) -> Seq<Deed> {
    let note = paths.transaction;
    let draft = transaction_draft(paths);
    let (removed, w1) = w.attempt(Deed::RemoveFile(draft));
    seq![Deed::Inspect(note)] + match w.sight(note) {
        Sight::Absent(_) => seq![Deed::Inspect(draft)] + if w.sight(draft) is Present {
            seq![Deed::RemoveFile(draft)] + match removed {
                Err(_) => seq![],
                Ok(()) => seq![Deed::SyncDirectory(paths.state)],
            }
        } else {
            seq![]
        },
        Sight::Present(Entry::File(_)) => seq![Deed::Inspect(draft)] + if w.sight(draft) is Present {
            seq![Deed::RemoveFile(draft)] + match removed {
                Err(_) => seq![],
                Ok(()) => following_deeds(w1, paths),
            }
        } else {
            following_deeds(w, paths)
        },
        _ => seq![],
    }
}

/// Completes a change that was interrupted, or drops it if its note was not published.
pub fn recover_pointer_transaction(session: &mut Session, paths: &Paths) -> (done: Result<(), Stop>)
    ensures
        ran(
            *old(session),
            *final(session),
            told(done),
            recovery_deeds(old(session).world(), paths@),
            change_recovered(old(session).world(), paths@),
        ),
{
    proof {
        reveal(recovery_deeds);
    }
    let draft = draft_of_transaction(paths);
    match session.inspect(&paths.transaction)? {
        Lookup::Failed(cause) => return Err(
            failed(
                "failed to inspect pointer transaction ".to_owned().concat(
                    paths.transaction.display().as_str(),
                ).concat(": ").concat(cause.as_str()),
            ),
        ),
        Lookup::Absent(_) => {
            match session.inspect(&draft)? {
                Lookup::Present(_) => {},
                _ => return Ok(()),
            }
            match session.attempt(Action::RemoveFile(draft.copy()))? {
                Attempt::Done(_) => {},
                Attempt::Failed(cause) => return Err(
                    failed(
                        "failed to remove unpublished pointer transaction ".to_owned().concat(
                            draft.display().as_str(),
                        ).concat(": ").concat(cause.as_str()),
                    ),
                ),
            }
            return sync_directory(session, &paths.state);
        },
        Lookup::Present(Entry::File(_)) => {},
        Lookup::Present(_) => return Err(
            failed(
                "pointer transaction ".to_owned().concat(
                    paths.transaction.display().as_str(),
                ).concat(" is not a regular file"),
            ),
        ),
    }
    match session.inspect(&draft)? {
        Lookup::Present(_) => {
            match session.attempt(Action::RemoveFile(draft.copy()))? {
                Attempt::Done(_) => {},
                Attempt::Failed(cause) => return Err(
                    failed(
                        "failed to remove stale pointer transaction ".to_owned().concat(
                            draft.display().as_str(),
                        ).concat(": ").concat(cause.as_str()),
                    ),
                ),
            }
        },
        _ => {},
    }
    let text = match session.read_text(&paths.transaction)? {
        Attempt::Done(text) => text,
        Attempt::Failed(cause) => return Err(
            failed(
                "failed to read pointer transaction ".to_owned().concat(
                    paths.transaction.display().as_str(),
                ).concat(": ").concat(cause.as_str()),
            ),
        ),
    };
    let transaction = settled(PointerTransaction::parse(text.as_str(), &paths.transaction))?;
    finish_pointer_transaction(session, paths, &transaction)
}

/// The change by which a channel selects a new release and keeps the one that it had.
pub open spec fn replacement(channel: Channel, had: Option<Installed>, new: Record) -> Change {
    Change {
        channel,
        current: install_name(channel, new.release),
        previous: match had {
            Some(had) => Some(had.name),
            None => None,
        },
    }
}

/// Lets a channel select a new release and keep the one that it had.
pub fn replace_channel_pointers(
    session: &mut Session,
    paths: &Paths,
    channel: Channel,
    old_current: &Option<Installation>,
    new_metadata: &InstallMetadata,
) -> (done: Result<(), Stop>)
    ensures
        ran(
            *old(session),
            *final(session),
            told(done),
            committing_deeds(
                old(session).world(),
                paths@,
                replacement(channel, old_current.deep_view(), new_metadata@),
            ),
            change_committed(
                old(session).world(),
                paths@,
                replacement(channel, old_current.deep_view(), new_metadata@),
            ),
        ),
        told(done) is None && final(session).faithful() ==> committing(
            old(session).world(),
            paths@,
            replacement(channel, old_current.deep_view(), new_metadata@),
            final(session).world(),
        ),
{
    let previous = match old_current {
        Some(installation) => Some(installation.directory_name.clone()),
        None => None,
    };
    let transaction = PointerTransaction {
        channel,
        current: channel.as_str().to_owned().concat("-").concat(new_metadata.release.as_str()),
        previous,
    };
    commit_pointer_transaction(session, paths, &transaction)
}

} // verus!
