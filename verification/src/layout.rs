//! The directories of which the state consists, and the lock that keeps it to one operation.

use vstd::prelude::*;

use crate::error::{error, verdict, worded, NvError};
use crate::host::{
    failed, group_walked, looked, ran, settled, told, under_way, Action, Attempt, Creation, Deed,
    Entry, Lookup, Making, Session, Sight, Stop, World,
};
use crate::path::{shown, UnixPath};
use crate::paths::{layout, layout_directories, path_bytes, Paths, Places};
use crate::text::{decimal, decimal_of};

verus! {

broadcast use group_walked;

/// Whether what is at `path` is a directory itself, and no link to one.
pub open spec fn real_directory(path: Seq<u8>, entry: Entry) -> Result<(), Seq<char>> {
    verdict(
        entry is Directory,
        "expected a real directory at "@ + shown(path) + ", found another file type"@,
    )
}

/// Accepts a directory itself, and no link to one.
pub fn require_real_directory(path: &UnixPath, entry: Entry) -> (fine: Result<(), NvError>)
    ensures
        worded(fine) == real_directory(path@, entry),
{
    match entry {
        Entry::Directory(_) => Ok(()),
        _ => Err(
            error(
                "expected a real directory at ".to_owned().concat(path.display().as_str()).concat(
                    ", found another file type",
                ),
            ),
        ),
    }
}

/// Whether what is at `path` is a directory that only its owner can change.
pub open spec fn secure_directory(path: Seq<u8>, entry: Entry) -> Result<(), Seq<char>> {
    match entry {
        Entry::Directory(mode) => verdict(
            mode & 0o022 == 0,
            "refusing writable-by-group-or-others directory "@ + shown(path)
                + "; remove group/other write permissions"@,
        ),
        _ => real_directory(path, entry),
    }
}

/// Accepts a directory that only its owner can change.
pub fn require_secure_directory(path: &UnixPath, entry: Entry) -> (fine: Result<(), NvError>)
    ensures
        worded(fine) == secure_directory(path@, entry),
{
    require_real_directory(path, entry)?;
    match entry {
        Entry::Directory(mode) => {
            if mode & 0o022 != 0 {
                return Err(
                    error(
                        "refusing writable-by-group-or-others directory ".to_owned().concat(
                            path.display().as_str(),
                        ).concat("; remove group/other write permissions"),
                    ),
                );
            }
        },
        _ => {},
    }
    Ok(())
}

/// Makes a directory and those above it, for the user alone.
pub open spec fn private_made(w: World, path: Seq<u8>) -> (Result<(), Seq<char>>, World) {
    let (made, after) = w.attempt(Deed::MakePrivateDirectories(path));
    match made {
        Ok(()) => (Ok(()), after),
        Err(cause) => (
            Err("failed to create private directory "@ + shown(path) + ": "@ + cause),
            after,
        ),
    }
}

/// Makes a directory and those above it, for the user alone.
pub fn create_private_dir(session: &mut Session, path: &UnixPath) -> (done: Result<(), Stop>)
    ensures
        ran(
            *old(session),
            *final(session),
            told(done),
            seq![Deed::MakePrivateDirectories(path@)],
            private_made(old(session).world(), path@),
        ),
{
    match session.attempt(Action::MakePrivateDirectories(path.copy()))? {
        Attempt::Done(_) => Ok(()),
        Attempt::Failed(cause) => Err(
            failed(
                "failed to create private directory ".to_owned().concat(
                    path.display().as_str(),
                ).concat(": ").concat(cause.as_str()),
            ),
        ),
    }
}

/// Brings what a directory lists to disk.
pub open spec fn synced(w: World, path: Seq<u8>) -> (Result<(), Seq<char>>, World) {
    let (done, after) = w.attempt(Deed::SyncDirectory(path));
    match done {
        Ok(()) => (Ok(()), after),
        Err(cause) => (Err("failed to sync directory "@ + shown(path) + ": "@ + cause), after),
    }
}

/// Brings what a directory lists to disk.
pub fn sync_directory(session: &mut Session, path: &UnixPath) -> (done: Result<(), Stop>)
    ensures
        ran(
            *old(session),
            *final(session),
            told(done),
            seq![Deed::SyncDirectory(path@)],
            synced(old(session).world(), path@),
        ),
{
    match session.attempt(Action::SyncDirectory(path.copy()))? {
        Attempt::Done(_) => Ok(()),
        Attempt::Failed(cause) => Err(
            failed(
                "failed to sync directory ".to_owned().concat(path.display().as_str()).concat(
                    ": ",
                ).concat(cause.as_str()),
            ),
        ),
    }
}

/// Writes a line to the standard output.
pub open spec fn printed(w: World, line: Seq<char>) -> (Result<(), Seq<char>>, World) {
    let (done, after) = w.attempt(Deed::Print(line));
    match done {
        Ok(()) => (Ok(()), after),
        Err(cause) => (Err("failed printing to stdout: "@ + cause), after),
    }
}

/// Writes a line to the standard output.
pub fn print(session: &mut Session, line: String) -> (done: Result<(), Stop>)
    ensures
        ran(
            *old(session),
            *final(session),
            told(done),
            seq![Deed::Print(line@)],
            printed(old(session).world(), line@),
        ),
{
    match session.attempt(Action::Print(line))? {
        Attempt::Done(_) => Ok(()),
        Attempt::Failed(cause) => Err(
            failed("failed printing to stdout: ".to_owned().concat(cause.as_str())),
        ),
    }
}

/// Writes a line to the standard error; whether that succeeds does not matter.
pub open spec fn warned(w: World, line: Seq<char>) -> (Result<(), Seq<char>>, World) {
    (Ok(()), w.attempt(Deed::Warn(line)).1)
}

/// Writes a line to the standard error; whether that succeeds does not matter.
pub fn warn(session: &mut Session, line: String) -> (done: Result<(), Stop>)
    ensures
        ran(
            *old(session),
            *final(session),
            told(done),
            seq![Deed::Warn(line@)],
            warned(old(session).world(), line@),
        ),
{
    session.attempt(Action::Warn(line))?;
    Ok(())
}

/// The message for a state directory that cannot be inspected.
pub open spec fn state_unseen(path: Seq<u8>, cause: Seq<char>) -> Seq<char> {
    "failed to inspect state directory "@ + shown(path) + ": "@ + cause
}

/// The failure to inspect a state directory.
pub fn unseen_state(path: &UnixPath, cause: &str) -> (stop: Stop)
    ensures
        stop matches Stop::Failed(told) && told@ == state_unseen(path@, cause@),
{
    failed(
        "failed to inspect state directory ".to_owned().concat(path.display().as_str()).concat(
            ": ",
        ).concat(cause),
    )
}

/// Makes the state directory unless it exists and is fit for use.
pub open spec fn state_root_prepared(w: World, paths: Places) -> (Result<(), Seq<char>>, World) {
    match w.sight(paths.state) {
        Sight::Present(entry) => (secure_directory(paths.state, entry), w),
        Sight::Absent(_) => private_made(w, paths.state),
        Sight::Failed(cause) => (Err(state_unseen(paths.state, cause)), w),
    }
}

/// What is done for that.
pub open spec fn preparation_deeds(w: World, paths: Places) -> Seq<Deed> {
    seq![Deed::Inspect(paths.state)] + if w.sight(paths.state) is Absent {
        seq![Deed::MakePrivateDirectories(paths.state)]
    } else {
        seq![]
    }
}

/// Makes the state directory unless it exists and is fit for use.
pub fn prepare_state_root(session: &mut Session, paths: &Paths) -> (done: Result<(), Stop>)
    ensures
        ran(
            *old(session),
            *final(session),
            told(done),
            preparation_deeds(old(session).world(), paths@),
            state_root_prepared(old(session).world(), paths@),
        ),
{
    match session.inspect(&paths.state)? {
        Lookup::Present(entry) => settled(require_secure_directory(&paths.state, entry)),
        Lookup::Absent(_) => create_private_dir(session, &paths.state),
        Lookup::Failed(cause) => Err(unseen_state(&paths.state, cause.as_str())),
    }
}

/// Whether the state directory exists and is fit for use.
pub open spec fn state_root(w: World, paths: Places) -> Result<(), Seq<char>> {
    match w.sight(paths.state) {
        Sight::Present(entry) => secure_directory(paths.state, entry),
        Sight::Absent(_) => Err(
            "nv state directory "@ + shown(paths.state)
                + " does not exist; install a channel first"@,
        ),
        Sight::Failed(cause) => Err(state_unseen(paths.state, cause)),
    }
}

/// Accepts a state directory that exists and is fit for use.
pub fn require_state_root(session: &mut Session, paths: &Paths) -> (done: Result<(), Stop>)
    ensures
        looked(
            *old(session),
            *final(session),
            told(done),
            seq![Deed::Inspect(paths.state@)],
            state_root(old(session).world(), paths@),
        ),
{
    match session.inspect(&paths.state)? {
        Lookup::Present(entry) => settled(require_secure_directory(&paths.state, entry)),
        Lookup::Absent(_) => Err(
            failed(
                "nv state directory ".to_owned().concat(paths.state.display().as_str()).concat(
                    " does not exist; install a channel first",
                ),
            ),
        ),
        Lookup::Failed(cause) => Err(unseen_state(&paths.state, cause.as_str())),
    }
}

/// Whether the paths are directories, up to the first that is not.
pub open spec fn all_directories(w: World, paths: Seq<Seq<u8>>) -> Result<(), Seq<char>>
    decreases paths.len(),
{
    if paths.len() == 0 {
        Ok(())
    } else {
        match w.sight(paths[0]) {
            Sight::Present(entry) => match real_directory(paths[0], entry) {
                Ok(()) => all_directories(w, paths.skip(1)),
                Err(message) => Err(message),
            },
            Sight::Absent(cause) | Sight::Failed(cause) => Err(
                "required state directory "@ + shown(paths[0]) + " is missing or inaccessible: "@
                    + cause,
            ),
        }
    }
}

/// What is done for that.
pub open spec fn directory_deeds(w: World, paths: Seq<Seq<u8>>) -> Seq<Deed>
    decreases paths.len(),
{
    if paths.len() == 0 {
        seq![]
    } else {
        seq![Deed::Inspect(paths[0])] + match w.sight(paths[0]) {
            Sight::Present(Entry::Directory(_)) => directory_deeds(w, paths.skip(1)),
            _ => seq![],
        }
    }
}

/// Accepts a state that consists of directories.
pub fn validate_layout(session: &mut Session, paths: &Paths) -> (done: Result<(), Stop>)
    ensures
        looked(
            *old(session),
            *final(session),
            told(done),
            directory_deeds(old(session).world(), layout(paths@)),
            all_directories(old(session).world(), layout(paths@)),
        ),
{
    let directories = layout_directories(paths);
    let ghost all = layout(paths@);
    assert(path_bytes(directories@).len() == 5);
    let ghost w = session.world();
    let mut at: usize = 0;
    assert(all.skip(0) =~= all);
    while at < directories.len()
        invariant
            path_bytes(directories@) == all,
            all == layout(paths@),
            directories.len() == 5,
            at <= directories.len(),
            under_way(
                *old(session),
                *session,
                directory_deeds(w, all),
                directory_deeds(w, all.skip(at as int)),
            ),
            session.world() == w,
            w == old(session).world(),
            session.faithful() ==> all_directories(w, all.skip(at as int)) == all_directories(
                w,
                all,
            ),
        decreases directories.len() - at,
    {
        let path = &directories[at];
        assert(all.skip(at as int)[0] == path_bytes(directories@)[at as int]);
        assert(all.skip(at as int).skip(1) =~= all.skip(at + 1));
        match session.inspect(path)? {
            Lookup::Present(entry) => settled(require_real_directory(path, entry))?,
            Lookup::Absent(cause) | Lookup::Failed(cause) => return Err(
                failed(
                    "required state directory ".to_owned().concat(
                        path.display().as_str(),
                    ).concat(" is missing or inaccessible: ").concat(cause.as_str()),
                ),
            ),
        }
        at = at + 1;
    }
    assert(all.skip(at as int) =~= seq![]);
    Ok(())
}

/// Makes the directories, up to the first that cannot be made.
pub open spec fn directories_made(w: World, paths: Seq<Seq<u8>>) -> (Result<(), Seq<char>>, World)
    decreases paths.len(),
{
    if paths.len() == 0 {
        (Ok(()), w)
    } else {
        let (made, after) = private_made(w, paths[0]);
        match made {
            Ok(()) => directories_made(after, paths.skip(1)),
            Err(message) => (Err(message), after),
        }
    }
}

/// What is done for that.
pub open spec fn making_deeds(w: World, paths: Seq<Seq<u8>>) -> Seq<Deed>
    decreases paths.len(),
{
    if paths.len() == 0 {
        seq![]
    } else {
        let (made, after) = private_made(w, paths[0]);
        seq![Deed::MakePrivateDirectories(paths[0])] + match made {
            Ok(()) => making_deeds(after, paths.skip(1)),
            Err(_) => seq![],
        }
    }
}

/// Whether an inspection finds something at one of the paths.
pub open spec fn some_present(w: World, paths: Seq<Seq<u8>>) -> bool {
    exists|k: int| 0 <= k < paths.len() && w.sight(#[trigger] paths[k]) is Present
}

/// Makes the directories of the state if none of them exists, and otherwise wants all of them.
pub open spec fn layout_ensured(w: World, paths: Places) -> (Result<(), Seq<char>>, World) {
    if some_present(w, layout(paths)) {
        (all_directories(w, layout(paths)), w)
    } else {
        directories_made(w, layout(paths))
    }
}

/// The inspection of each of the paths.
pub open spec fn inspections(paths: Seq<Seq<u8>>) -> Seq<Deed> {
    Seq::new(paths.len(), |k: int| Deed::Inspect(paths[k]))
}

/// What is done to make the directories of the state if none of them exists.
#[verifier::opaque]
pub open spec fn layout_deeds(w: World, paths: Places) -> Seq<Deed> {
    inspections(layout(paths)) + if some_present(w, layout(paths)) {
        directory_deeds(w, layout(paths))
    } else {
        making_deeds(w, layout(paths))
    }
}

/// Makes the directories of the state if none of them exists, and otherwise wants all of them.
pub fn ensure_layout(session: &mut Session, paths: &Paths) -> (done: Result<(), Stop>)
    ensures
        ran(
            *old(session),
            *final(session),
            told(done),
            layout_deeds(old(session).world(), paths@),
            layout_ensured(old(session).world(), paths@),
        ),
{
    proof {
        reveal(layout_deeds);
    }
    let directories = layout_directories(paths);
    let ghost all = layout(paths@);
    assert(path_bytes(directories@).len() == 5);
    let ghost w = session.world();
    let ghost then = if some_present(w, all) {
        directory_deeds(w, all)
    } else {
        making_deeds(w, all)
    };
    let mut existing: usize = 0;
    let mut at: usize = 0;
    assert(all.skip(0) =~= all);
    while at < directories.len()
        invariant
            path_bytes(directories@) == all,
            all == layout(paths@),
            directories.len() == 5,
            at <= directories.len(),
            existing <= at,
            under_way(
                *old(session),
                *session,
                layout_deeds(w, paths@),
                inspections(all.skip(at as int)) + then,
            ),
            session.world() == w,
            w == old(session).world(),
            session.faithful() ==> (existing > 0 <==> exists|k: int|
                0 <= k < at && w.sight(#[trigger] all[k]) is Present),
        decreases directories.len() - at,
    {
        assert(all[at as int] == path_bytes(directories@)[at as int]);
        assert(inspections(all.skip(at as int)) + then =~= seq![Deed::Inspect(all[at as int])] + (
        inspections(all.skip(at + 1)) + then));
        match session.inspect(&directories[at])? {
            Lookup::Present(_) => {
                existing = existing + 1;
            },
            _ => {},
        }
        at = at + 1;
    }
    assert(inspections(all.skip(at as int)) + then =~= then);
    if existing == 0 {
        let mut at: usize = 0;
        while at < directories.len()
            invariant
                path_bytes(directories@) == all,
                all == layout(paths@),
                session.faithful() ==> !some_present(w, all),
                directories.len() == 5,
                at <= directories.len(),
                under_way(
                    *old(session),
                    *session,
                    layout_deeds(w, paths@),
                    if session.faithful() {
                        making_deeds(session.world(), all.skip(at as int))
                    } else {
                        seq![]
                    },
                ),
                w == old(session).world(),
                session.faithful() ==> directories_made(session.world(), all.skip(at as int))
                    == directories_made(w, all),
            decreases directories.len() - at,
        {
            let path = &directories[at];
            assert(all.skip(at as int)[0] == path_bytes(directories@)[at as int]);
            assert(all.skip(at as int).skip(1) =~= all.skip(at + 1));
            create_private_dir(session, path)?;
            at = at + 1;
        }
        assert(all.skip(at as int) =~= seq![]);
        return Ok(());
    }
    validate_layout(session, paths)
}

/// The lock of the state, held by this process.
pub struct LockGuard {
    pub path: UnixPath,
}

/// Takes the lock.
pub open spec fn lock_taken(w: World, paths: Places, process: u32) -> (Result<(), Seq<char>>, World) {
    let lock = paths.lock;
    let (made, w1) = w.create(lock);
    match made {
        Making::Exists(_) => (
            Err(
                "another nv operation is active, or a previous operation was interrupted: "@
                    + shown(lock)
                    + " exists; once no nv process is running, inspect it and move it to the trash manually"@,
            ),
            w1,
        ),
        Making::Failed(cause) => (
            Err("failed to acquire operation lock "@ + shown(lock) + ": "@ + cause),
            w1,
        ),
        Making::Created => {
            let (written, w2) = w1.attempt(
                Deed::Write(lock, "pid="@ + decimal(process as nat) + "\n"@),
            );
            match written {
                Err(cause) => (
                    Err("failed to write operation lock "@ + shown(lock) + ": "@ + cause),
                    w2.attempt(Deed::RemoveFile(lock)).1,
                ),
                Ok(()) => {
                    let (stored, w3) = w2.attempt(Deed::SyncFile(lock));
                    match stored {
                        Err(cause) => (
                            Err("failed to flush operation lock "@ + shown(lock) + ": "@ + cause),
                            w3.attempt(Deed::RemoveFile(lock)).1,
                        ),
                        Ok(()) => (Ok(()), w3),
                    }
                },
            }
        },
    }
}

/// What is done to take the lock.
pub open spec fn lock_deeds(w: World, paths: Places, process: u32) -> Seq<Deed> {
    let lock = paths.lock;
    let write = Deed::Write(lock, "pid="@ + decimal(process as nat) + "\n"@);
    let (made, w1) = w.create(lock);
    seq![Deed::CreateNew(lock)] + if made is Created {
        let (written, w2) = w1.attempt(write);
        seq![write] + match written {
            Err(_) => seq![Deed::RemoveFile(lock)],
            Ok(()) => seq![Deed::SyncFile(lock)] + match w2.attempt(Deed::SyncFile(lock)).0 {
                Err(_) => seq![Deed::RemoveFile(lock)],
                Ok(()) => seq![],
            },
        }
    } else {
        seq![]
    }
}

/// Gives the lock back. A lock that cannot be removed is tried once more.
pub open spec fn lock_released(w: World, paths: Places) -> (Result<(), Seq<char>>, World) {
    let (removed, w1) = w.attempt(Deed::RemoveFile(paths.lock));
    match removed {
        Ok(()) => (Ok(()), w1),
        Err(cause) => (
            Err(
                "operation completed but failed to remove lock "@ + shown(paths.lock) + ": "@
                    + cause,
            ),
            w1.attempt(Deed::RemoveFile(paths.lock)).1,
        ),
    }
}

/// What is done to give the lock back.
pub open spec fn unlock_deeds(w: World, paths: Places) -> Seq<Deed> {
    seq![Deed::RemoveFile(paths.lock)] + match w.attempt(Deed::RemoveFile(paths.lock)).0 {
        Ok(()) => seq![],
        Err(_) => seq![Deed::RemoveFile(paths.lock)],
    }
}

impl LockGuard {
    /// Takes the lock for the process with the given number.
    pub fn acquire(session: &mut Session, paths: &Paths, process: u32) -> (done: Result<
        LockGuard,
        Stop,
    >)
        ensures
            ran(
                *old(session),
                *final(session),
                told(lock_result(done)), lock_deeds(old(session).world(), paths@, process),
                lock_taken(old(session).world(), paths@, process),
            ),
            done matches Ok(guard) ==> guard.path@ == paths.lock@,
    {
        let shown_path = paths.lock.display();
        match session.create_new(&paths.lock)? {
            Creation::Created => {},
            Creation::Exists(_) => return Err(
                failed(
                    "another nv operation is active, or a previous operation was interrupted: ".to_owned().concat(
                    shown_path.as_str()).concat(
                        " exists; once no nv process is running, inspect it and move it to the trash manually",
                    ),
                ),
            ),
            Creation::Failed(cause) => return Err(
                failed(
                    "failed to acquire operation lock ".to_owned().concat(
                        shown_path.as_str(),
                    ).concat(": ").concat(cause.as_str()),
                ),
            ),
        }
        let line = "pid=".to_owned().concat(decimal_of(process as u128).as_str()).concat("\n");
        match session.attempt(Action::Write(paths.lock.copy(), line))? {
            Attempt::Done(_) => {},
            Attempt::Failed(cause) => {
                session.attempt(Action::RemoveFile(paths.lock.copy()))?;
                return Err(
                    failed(
                        "failed to write operation lock ".to_owned().concat(
                            shown_path.as_str(),
                        ).concat(": ").concat(cause.as_str()),
                    ),
                );
            },
        }
        match session.attempt(Action::SyncFile(paths.lock.copy()))? {
            Attempt::Done(_) => {},
            Attempt::Failed(cause) => {
                session.attempt(Action::RemoveFile(paths.lock.copy()))?;
                return Err(
                    failed(
                        "failed to flush operation lock ".to_owned().concat(
                            shown_path.as_str(),
                        ).concat(": ").concat(cause.as_str()),
                    ),
                );
            },
        }
        Ok(LockGuard { path: paths.lock.copy() })
    }

    /// Gives the lock back.
    pub fn release(self, session: &mut Session, paths: &Paths) -> (done: Result<(), Stop>)
        requires
            self.path@ == paths.lock@,
        ensures
            ran(
                *old(session),
                *final(session),
                told(done),
                unlock_deeds(old(session).world(), paths@),
                lock_released(old(session).world(), paths@),
            ),
    {
        match session.attempt(Action::RemoveFile(self.path.copy()))? {
            Attempt::Done(_) => Ok(()),
            Attempt::Failed(cause) => {
                session.attempt(Action::RemoveFile(self.path.copy()))?;
                Err(
                    failed(
                        "operation completed but failed to remove lock ".to_owned().concat(
                            self.path.display().as_str(),
                        ).concat(": ").concat(cause.as_str()),
                    ),
                )
            },
        }
    }
}

/// What became of the attempt to take the lock.
pub open spec fn lock_result(done: Result<LockGuard, Stop>) -> Result<(), Stop> {
    match done {
        Ok(_) => Ok(()),
        Err(stop) => Err(stop),
    }
}

} // verus!
