//! A run of the program: from the command line to its last line of output.

use vstd::prelude::*;

use crate::activation::{
    activate_channel, activation_deeds, channel_activated, destination, destination_deeds,
    validate_activation_destination,
};
use crate::channel::{Channel, ChannelSelection};
use crate::cli::{argument_bytes, command_line, Cli, USAGE};
use crate::commands::{
    channel_rolled_back, channels_removed, channels_updated, empty_status, lines_deeds,
    lines_printed, platform, print_empty_status, print_status, remove_deeds, remove_installed,
    rollback_channel, rollback_deeds, status_deeds, status_printed, update_deeds, update_installed,
    validate_platform,
};
use crate::error::NvError;
use crate::host::{
    failed, group_walked, ran, settled, told, walked, Action, Deed, Lookup, Session, Sight, Stop,
    World,
};
use crate::install::{install_missing, missing_deeds, missing_installed};
use crate::layout::{
    all_directories, directory_deeds, ensure_layout, layout_deeds, layout_ensured, lock_deeds,
    lock_released, lock_taken, preparation_deeds, prepare_state_root, print, printed,
    require_secure_directory, require_state_root, secure_directory, state_root, state_root_prepared,
    state_unseen, unlock_deeds, unseen_state, validate_layout, LockGuard,
};
use crate::path::UnixPath;
use crate::paths::{layout, places_of, Paths, Places};
use crate::pointers::{change_recovered, recover_pointer_transaction, recovery_deeds};
use crate::programs::{
    preflight_external_programs, presence_deeds, programs_present, required_programs, Setting,
};

verus! {

broadcast use group_walked;

/// What is done while the lock is held.
#[derive(Clone, Copy, Debug, PartialEq, Eq, Structural)]
pub enum Operation {
    Install(Channel),
    Use(Channel),
    Update(ChannelSelection),
    Remove(ChannelSelection),
    Rollback(Channel),
    Status,
}

/// Puts a channel in use, of which a release is installed if there is none.
pub open spec fn channel_used(w: World, paths: Places, setting: Setting, channel: Channel) -> (
    Result<(), Seq<char>>,
    World,
) {
    match destination(w, paths) {
        Err(message) => (Err(message), w),
        Ok(()) => {
            let (installed, w1) = missing_installed(w, paths, setting, channel);
            match installed {
                Err(message) => (Err(message), w1),
                Ok(()) => channel_activated(w1, paths, channel),
            }
        },
    }
}

/// What is done for that.
#[verifier::opaque]
pub open spec fn use_deeds(w: World, paths: Places, setting: Setting, channel: Channel) -> Seq<Deed> {
    destination_deeds(w, paths) + match destination(w, paths) {
        Err(_) => seq![],
        Ok(()) => {
            let (installed, w1) = missing_installed(w, paths, setting, channel);
            missing_deeds(w, paths, setting, channel) + match installed {
                Err(_) => seq![],
                Ok(()) => activation_deeds(w1, paths, channel),
            }
        },
    }
}

fn use_channel(session: &mut Session, paths: &Paths, setting: &Setting, channel: Channel) -> (done:
    Result<(), Stop>)
    ensures
        ran(
            *old(session),
            *final(session),
            told(done),
            use_deeds(old(session).world(), paths@, *setting, channel),
            channel_used(old(session).world(), paths@, *setting, channel),
        ),
{
    proof {
        reveal(use_deeds);
    }
    validate_activation_destination(session, paths)?;
    install_missing(session, paths, setting, channel)?;
    activate_channel(session, paths, channel)
}

/// Does what an operation is to do.
pub open spec fn operated(w: World, paths: Places, setting: Setting, operation: Operation) -> (
    Result<(), Seq<char>>,
    World,
) {
    match operation {
        Operation::Install(channel) => {
            let (ensured, w1) = layout_ensured(w, paths);
            match ensured {
                Err(message) => (Err(message), w1),
                Ok(()) => missing_installed(w1, paths, setting, channel),
            }
        },
        Operation::Use(channel) => {
            let (ensured, w1) = layout_ensured(w, paths);
            match ensured {
                Err(message) => (Err(message), w1),
                Ok(()) => channel_used(w1, paths, setting, channel),
            }
        },
        Operation::Update(selection) => match all_directories(w, layout(paths)) {
            Err(message) => (Err(message), w),
            Ok(()) => channels_updated(w, paths, setting, selection),
        },
        Operation::Remove(selection) => match all_directories(w, layout(paths)) {
            Err(message) => (Err(message), w),
            Ok(()) => channels_removed(w, paths, selection),
        },
        Operation::Rollback(channel) => match all_directories(w, layout(paths)) {
            Err(message) => (Err(message), w),
            Ok(()) => channel_rolled_back(w, paths, channel),
        },
        Operation::Status => status_printed(w, paths),
    }
}

/// What is done for an operation.
#[verifier::opaque]
pub open spec fn operation_deeds(
    w: World,
    paths: Places,
    setting: Setting,
    operation: Operation,
) -> Seq<Deed> {
    let (ensured, w1) = layout_ensured(w, paths);
    let complete = all_directories(w, layout(paths)) is Ok;
    match operation {
        Operation::Install(channel) => layout_deeds(w, paths) + match ensured {
            Err(_) => seq![],
            Ok(()) => missing_deeds(w1, paths, setting, channel),
        },
        Operation::Use(channel) => layout_deeds(w, paths) + match ensured {
            Err(_) => seq![],
            Ok(()) => use_deeds(w1, paths, setting, channel),
        },
        Operation::Update(selection) => directory_deeds(w, layout(paths)) + if complete {
            update_deeds(w, paths, setting, selection)
        } else {
            seq![]
        },
        Operation::Remove(selection) => directory_deeds(w, layout(paths)) + if complete {
            remove_deeds(w, paths, selection)
        } else {
            seq![]
        },
        Operation::Rollback(channel) => directory_deeds(w, layout(paths)) + if complete {
            rollback_deeds(w, paths, channel)
        } else {
            seq![]
        },
        Operation::Status => status_deeds(w, paths),
    }
}

/// Does what an operation is to do.
pub fn operate(session: &mut Session, paths: &Paths, setting: &Setting, operation: Operation) -> (done:
    Result<(), Stop>)
    ensures
        ran(
            *old(session),
            *final(session),
            told(done),
            operation_deeds(old(session).world(), paths@, *setting, operation),
            operated(old(session).world(), paths@, *setting, operation),
        ),
{
    proof {
        reveal(operation_deeds);
    }
    match operation {
        Operation::Install(channel) => {
            ensure_layout(session, paths)?;
            install_missing(session, paths, setting, channel)
        },
        Operation::Use(channel) => {
            ensure_layout(session, paths)?;
            use_channel(session, paths, setting, channel)
        },
        Operation::Update(selection) => {
            validate_layout(session, paths)?;
            update_installed(session, paths, setting, selection)
        },
        Operation::Remove(selection) => {
            validate_layout(session, paths)?;
            remove_installed(session, paths, selection)
        },
        Operation::Rollback(channel) => {
            validate_layout(session, paths)?;
            rollback_channel(session, paths, channel)
        },
        Operation::Status => print_status(session, paths),
    }
}

/// Completes an interrupted change, then does what an operation is to do.
pub open spec fn recovered_and_operated(
    w: World,
    paths: Places,
    setting: Setting,
    operation: Operation,
) -> (Result<(), Seq<char>>, World) {
    let (recovered, w1) = change_recovered(w, paths);
    match recovered {
        Err(message) => (Err(message), w1),
        Ok(()) => operated(w1, paths, setting, operation),
    }
}

/// What is done for that.
#[verifier::opaque]
pub open spec fn recovered_deeds(
    w: World,
    paths: Places,
    setting: Setting,
    operation: Operation,
) -> Seq<Deed> {
    let (recovered, w1) = change_recovered(w, paths);
    recovery_deeds(w, paths) + match recovered {
        Err(_) => seq![],
        Ok(()) => operation_deeds(w1, paths, setting, operation),
    }
}

/// The outcome of an operation and of giving the lock back after it.
pub open spec fn both(operated: Result<(), Seq<char>>, released: Result<(), Seq<char>>) -> Result<
    (),
    Seq<char>,
> {
    match (operated, released) {
        (Ok(()), released) => released,
        (Err(cause), Ok(())) => Err(cause),
        (Err(cause), Err(release_cause)) => Err(cause + "; additionally, "@ + release_cause),
    }
}

/// Does what an operation is to do while the lock is held. An interrupted change is completed
/// first.
pub open spec fn locked(w: World, paths: Places, setting: Setting, operation: Operation) -> (
    Result<(), Seq<char>>,
    World,
) {
    let (taken, w1) = lock_taken(w, paths, setting.process);
    match taken {
        Err(message) => (Err(message), w1),
        Ok(()) => {
            let (done, w2) = recovered_and_operated(w1, paths, setting, operation);
            let (released, w3) = lock_released(w2, paths);
            (both(done, released), w3)
        },
    }
}

/// What is done for that.
#[verifier::opaque]
pub open spec fn locked_deeds(
    w: World,
    paths: Places,
    setting: Setting,
    operation: Operation,
) -> Seq<Deed> {
    let (taken, w1) = lock_taken(w, paths, setting.process);
    lock_deeds(w, paths, setting.process) + match taken {
        Err(_) => seq![],
        Ok(()) => {
            let w2 = recovered_and_operated(w1, paths, setting, operation).1;
            recovered_deeds(w1, paths, setting, operation) + unlock_deeds(w2, paths)
        },
    }
}

fn recover_and_operate(
    session: &mut Session,
    paths: &Paths,
    setting: &Setting,
    operation: Operation,
) -> (done: Result<(), Stop>)
    ensures
        ran(
            *old(session),
            *final(session),
            told(done),
            recovered_deeds(old(session).world(), paths@, *setting, operation),
            recovered_and_operated(old(session).world(), paths@, *setting, operation),
        ),
{
    proof {
        reveal(recovered_deeds);
    }
    recover_pointer_transaction(session, paths)?;
    operate(session, paths, setting, operation)
}

/// Does what an operation is to do while the lock is held. An interrupted change is completed
/// first.
pub fn with_lock(session: &mut Session, paths: &Paths, setting: &Setting, operation: Operation) -> (done:
    Result<(), Stop>)
    ensures
        ran(
            *old(session),
            *final(session),
            told(done),
            locked_deeds(old(session).world(), paths@, *setting, operation),
            locked(old(session).world(), paths@, *setting, operation),
        ),
{
    proof {
        reveal(locked_deeds);
    }
    let lock = LockGuard::acquire(session, paths, setting.process)?;
    let outcome = match recover_and_operate(session, paths, setting, operation) {
        Ok(_) => None,
        Err(Stop::Failed(cause)) => Some(cause),
        Err(Stop::Waiting) => return Err(Stop::Waiting),
    };
    match lock.release(session, paths) {
        Ok(_) => match outcome {
            None => Ok(()),
            Some(cause) => Err(Stop::Failed(cause)),
        },
        Err(Stop::Failed(release_cause)) => match outcome {
            None => Err(Stop::Failed(release_cause)),
            Some(cause) => Err(
                failed(
                    cause.0.concat("; additionally, ").concat(release_cause.message()),
                ),
            ),
        },
        Err(Stop::Waiting) => Err(Stop::Waiting),
    }
}

/// Shows the status.
pub open spec fn status_shown(w: World, paths: Places, setting: Setting) -> (
    Result<(), Seq<char>>,
    World,
) {
    match w.sight(paths.state) {
        Sight::Absent(_) => lines_printed(w, empty_status()),
        Sight::Failed(cause) => (Err(state_unseen(paths.state, cause)), w),
        Sight::Present(entry) => match secure_directory(paths.state, entry) {
            Err(message) => (Err(message), w),
            Ok(()) => locked(w, paths, setting, Operation::Status),
        },
    }
}

/// What is done for that.
#[verifier::opaque]
pub open spec fn showing_deeds(w: World, paths: Places, setting: Setting) -> Seq<Deed> {
    seq![Deed::Inspect(paths.state)] + match w.sight(paths.state) {
        Sight::Absent(_) => lines_deeds(w, empty_status()),
        Sight::Failed(_) => seq![],
        Sight::Present(entry) => match secure_directory(paths.state, entry) {
            Err(_) => seq![],
            Ok(()) => locked_deeds(w, paths, setting, Operation::Status),
        },
    }
}

/// Shows the status.
pub fn status(session: &mut Session, paths: &Paths, setting: &Setting) -> (done: Result<(), Stop>)
    ensures
        ran(
            *old(session),
            *final(session),
            told(done),
            showing_deeds(old(session).world(), paths@, *setting),
            status_shown(old(session).world(), paths@, *setting),
        ),
{
    proof {
        reveal(showing_deeds);
    }
    match session.inspect(&paths.state)? {
        Lookup::Absent(_) => return print_empty_status(session),
        Lookup::Failed(cause) => return Err(unseen_state(&paths.state, cause.as_str())),
        Lookup::Present(entry) => settled(require_secure_directory(&paths.state, entry))?,
    }
    with_lock(session, paths, setting, Operation::Status)
}

/// What nv knows of the machine before it begins.
#[derive(Debug)]
pub struct Host {
    pub os: String,
    pub arch: String,
    /// The home directory that the environment names.
    pub home: Option<UnixPath>,
    pub setting: Setting,
}

/// Does what may create the state: the programs that nv needs are looked for, and the state
/// directory is made if it is missing.
pub open spec fn beginning(w: World, paths: Places, setting: Setting, operation: Operation) -> (
    Result<(), Seq<char>>,
    World,
) {
    let (present, w1) = programs_present(w, required_programs());
    match present {
        Err(message) => (Err(message), w1),
        Ok(()) => {
            let (prepared, w2) = state_root_prepared(w1, paths);
            match prepared {
                Err(message) => (Err(message), w2),
                Ok(()) => locked(w2, paths, setting, operation),
            }
        },
    }
}

/// What is done for that.
#[verifier::opaque]
pub open spec fn beginning_deeds(
    w: World,
    paths: Places,
    setting: Setting,
    operation: Operation,
) -> Seq<Deed> {
    let (present, w1) = programs_present(w, required_programs());
    presence_deeds(w, required_programs()) + match present {
        Err(_) => seq![],
        Ok(()) => {
            let (prepared, w2) = state_root_prepared(w1, paths);
            preparation_deeds(w1, paths) + match prepared {
                Err(_) => seq![],
                Ok(()) => locked_deeds(w2, paths, setting, operation),
            }
        },
    }
}

fn begin(session: &mut Session, paths: &Paths, setting: &Setting, operation: Operation) -> (done:
    Result<(), Stop>)
    ensures
        ran(
            *old(session),
            *final(session),
            told(done),
            beginning_deeds(old(session).world(), paths@, *setting, operation),
            beginning(old(session).world(), paths@, *setting, operation),
        ),
{
    proof {
        reveal(beginning_deeds);
    }
    preflight_external_programs(session)?;
    prepare_state_root(session, paths)?;
    with_lock(session, paths, setting, operation)
}

/// Does what needs a state that exists.
pub open spec fn continuing(w: World, paths: Places, setting: Setting, operation: Operation) -> (
    Result<(), Seq<char>>,
    World,
) {
    match state_root(w, paths) {
        Err(message) => (Err(message), w),
        Ok(()) => locked(w, paths, setting, operation),
    }
}

/// What is done for that.
#[verifier::opaque]
pub open spec fn continuing_deeds(
    w: World,
    paths: Places,
    setting: Setting,
    operation: Operation,
) -> Seq<Deed> {
    seq![Deed::Inspect(paths.state)] + match state_root(w, paths) {
        Err(_) => seq![],
        Ok(()) => locked_deeds(w, paths, setting, operation),
    }
}

fn go_on(session: &mut Session, paths: &Paths, setting: &Setting, operation: Operation) -> (done:
    Result<(), Stop>)
    ensures
        ran(
            *old(session),
            *final(session),
            told(done),
            continuing_deeds(old(session).world(), paths@, *setting, operation),
            continuing(old(session).world(), paths@, *setting, operation),
        ),
{
    proof {
        reveal(continuing_deeds);
    }
    require_state_root(session, paths)?;
    with_lock(session, paths, setting, operation)
}

/// Carries out a command other than the request for help.
pub open spec fn carried_out(w: World, paths: Places, setting: Setting, cli: Cli) -> (
    Result<(), Seq<char>>,
    World,
) {
    match cli {
        Cli::Install(channel) => beginning(w, paths, setting, Operation::Install(channel)),
        Cli::Use(channel) => beginning(w, paths, setting, Operation::Use(channel)),
        Cli::Update(selection) => {
            let (present, w1) = programs_present(w, required_programs());
            match present {
                Err(message) => (Err(message), w1),
                Ok(()) => continuing(w1, paths, setting, Operation::Update(selection)),
            }
        },
        Cli::Remove(selection) => continuing(w, paths, setting, Operation::Remove(selection)),
        Cli::Rollback(channel) => continuing(w, paths, setting, Operation::Rollback(channel)),
        Cli::Status => status_shown(w, paths, setting),
        Cli::Help => printed(w, USAGE@),
    }
}

/// What is done to carry out a command.
#[verifier::opaque]
pub open spec fn command_deeds(w: World, paths: Places, setting: Setting, cli: Cli) -> Seq<Deed> {
    match cli {
        Cli::Install(channel) => beginning_deeds(w, paths, setting, Operation::Install(channel)),
        Cli::Use(channel) => beginning_deeds(w, paths, setting, Operation::Use(channel)),
        Cli::Update(selection) => {
            let (present, w1) = programs_present(w, required_programs());
            presence_deeds(w, required_programs()) + match present {
                Err(_) => seq![],
                Ok(()) => continuing_deeds(w1, paths, setting, Operation::Update(selection)),
            }
        },
        Cli::Remove(selection) => continuing_deeds(w, paths, setting, Operation::Remove(selection)),
        Cli::Rollback(channel) => continuing_deeds(w, paths, setting, Operation::Rollback(channel)),
        Cli::Status => showing_deeds(w, paths, setting),
        Cli::Help => seq![Deed::Print(USAGE@)],
    }
}

fn carry_out(session: &mut Session, paths: &Paths, setting: &Setting, cli: Cli) -> (done: Result<
    (),
    Stop,
>)
    ensures
        ran(
            *old(session),
            *final(session),
            told(done),
            command_deeds(old(session).world(), paths@, *setting, cli),
            carried_out(old(session).world(), paths@, *setting, cli),
        ),
{
    proof {
        reveal(command_deeds);
    }
    match cli {
        Cli::Install(channel) => begin(session, paths, setting, Operation::Install(channel)),
        Cli::Use(channel) => begin(session, paths, setting, Operation::Use(channel)),
        Cli::Update(selection) => {
            preflight_external_programs(session)?;
            go_on(session, paths, setting, Operation::Update(selection))
        },
        Cli::Remove(selection) => go_on(session, paths, setting, Operation::Remove(selection)),
        Cli::Rollback(channel) => go_on(session, paths, setting, Operation::Rollback(channel)),
        Cli::Status => status(session, paths, setting),
        Cli::Help => print(session, USAGE.to_owned()),
    }
}

/// What the program does when it is called with `arguments`.
pub open spec fn program_run(w: World, host: Host, arguments: Seq<Seq<u8>>) -> (
    Result<(), Seq<char>>,
    World,
) {
    match command_line(arguments) {
        Err(message) => (Err(message), w),
        Ok(Cli::Help) => printed(w, USAGE@),
        Ok(cli) => match platform(host.os@, host.arch@) {
            Err(message) => (Err(message), w),
            Ok(()) => match places_of(host.home.deep_view()) {
                Err(message) => (Err(message), w),
                Ok(paths) => carried_out(w, paths, host.setting, cli),
            },
        },
    }
}

/// What is done when the program is called with `arguments`: the actions on the machine, in their
/// order.
pub open spec fn program_deeds(w: World, host: Host, arguments: Seq<Seq<u8>>) -> Seq<Deed> {
    match command_line(arguments) {
        Err(_) => seq![],
        Ok(Cli::Help) => seq![Deed::Print(USAGE@)],
        Ok(cli) => match platform(host.os@, host.arch@) {
            Err(_) => seq![],
            Ok(()) => match places_of(host.home.deep_view()) {
                Err(_) => seq![],
                Ok(paths) => command_deeds(w, paths, host.setting, cli),
            },
        },
    }
}

/// Runs the program with `arguments`.
pub fn run(session: &mut Session, host: &Host, arguments: &Vec<Vec<u8>>) -> (done: Result<(), Stop>)
    ensures
        ran(
            *old(session),
            *final(session),
            told(done),
            program_deeds(old(session).world(), *host, argument_bytes(arguments@)),
            program_run(old(session).world(), *host, argument_bytes(arguments@)),
        ),
{
    let cli = settled(Cli::parse(arguments))?;
    if cli == Cli::Help {
        return print(session, USAGE.to_owned());
    }
    settled(validate_platform(host.os.as_str(), host.arch.as_str()))?;
    let paths = settled(Paths::discover(&host.home))?;
    carry_out(session, &paths, &host.setting, cli)
}

/// What comes next in a run of the program.
#[derive(Debug)]
pub enum Step {
    /// The machine is to do this, and its reply is wanted.
    Perform(Action),
    /// The run is over.
    Finished(Result<(), NvError>),
}

/// Runs the program up to the first action to which there is no reply yet.
///
/// The session stays faithful exactly if the replies in it are those that the world gives to the
/// actions of the program. Then the step is the first action without a reply, and the end of the
/// run where there is a reply to each.
pub fn advance(session: &mut Session, host: &Host, arguments: &Vec<Vec<u8>>) -> (step: Step)
    ensures
        final(session).replies() == old(session).replies(),
        final(session).origin() == old(session).origin(),
        old(session).sound() ==> final(session).sound(),
        ({
            let (before, after) = (*old(session), *final(session));
            let replies = before.replies();
            let deeds = program_deeds(before.world(), *host, argument_bytes(arguments@));
            let reached = walked(before.world(), deeds, replies, before.used() as int);
            let (due, world) = program_run(before.world(), *host, argument_bytes(arguments@));
            &&& before.used() <= after.used()
            &&& after.faithful() == (before.faithful() && reached is Some)
            &&& after.faithful() ==> reached == Some(after.world())
            &&& match step {
                Step::Perform(action) => {
                    &&& after.used() == replies.len()
                    &&& after.faithful() ==> before.used() + deeds.len() > replies.len() && action@
                        == deeds[replies.len() - before.used()]
                },
                Step::Finished(result) => after.faithful() ==> {
                    &&& before.used() + deeds.len() <= replies.len()
                    &&& after.used() == before.used() + deeds.len()
                    &&& after.world() == world
                    &&& match result {
                        Ok(_) => due is Ok,
                        Err(cause) => due == Err::<(), Seq<char>>(cause@),
                    }
                },
            }
        }),
{
    match run(session, host, arguments) {
        Ok(_) => Step::Finished(Ok(())),
        Err(Stop::Failed(cause)) => Step::Finished(Err(cause)),
        Err(Stop::Waiting) => match session.take_awaited() {
            Some(action) => Step::Perform(action),
            None => Step::Finished(Ok(())),
        },
    }
}

} // verus!
