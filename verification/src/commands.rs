//! The commands.

use vstd::prelude::*;

use crate::activation::{
    active_channel, active_deeds, deactivate, deactivated, deactivation_deeds, exposure,
    exposure_deeds, validate_active_channel, validate_nvim_exposure,
};
use crate::channel::{Channel, ChannelSelection};
use crate::cleanup::{cleanup_deeds, cleanup_unreferenced_installs, installs_cleaned};
use crate::error::{error, verdict, worded, NvError};
use crate::host::{
    failed, group_walked, looked, ran, told, under_way, Action, Attempt, Deed, Session, Stop, World,
};
use crate::install::{channel_installed, install_channel, install_deeds};
use crate::installation::{
    read_all_channel_states, read_channel_state, state_deeds, state_of, states_deeds, states_of,
    ChannelState, Installation, Installed, Selected,
};
use crate::layout::{
    all_directories, directory_deeds, print, printed, sync_directory, synced, validate_layout,
};
use crate::path::shown;
use crate::paths::{layout, Paths, Places};
use crate::pointers::{change_committed, commit_pointer_transaction, committing_deeds};
use crate::programs::Setting;
use crate::text::same;
use crate::transaction::{Change, PointerTransaction};

verus! {

broadcast use group_walked;

/// Whether nv supports the platform.
pub open spec fn platform(os: Seq<char>, arch: Seq<char>) -> Result<(), Seq<char>> {
    verdict(
        os == "linux"@ && arch == "x86_64"@,
        "unsupported platform "@ + os + " "@ + arch + "; nv supports only Linux x86_64"@,
    )
}

/// Accepts the platform that nv supports.
pub fn validate_platform(os: &str, arch: &str) -> (fine: Result<(), NvError>)
    ensures
        worded(fine) == platform(os@, arch@),
{
    if !same(os, "linux") || !same(arch, "x86_64") {
        return Err(
            error(
                "unsupported platform ".to_owned().concat(os).concat(" ").concat(arch).concat(
                    "; nv supports only Linux x86_64",
                ),
            ),
        );
    }
    Ok(())
}

/// The channels of which a release is installed, with what they select.
pub open spec fn installed_states(states: Seq<(Channel, Selected)>) -> Seq<(Channel, Selected)> {
    states.filter(|entry: (Channel, Selected)| entry.1.current is Some)
}

fn keep_installed(states: Vec<(Channel, ChannelState)>) -> (kept: Vec<(Channel, ChannelState)>)
    ensures
        kept.deep_view() == installed_states(states.deep_view()),
        kept@.len() <= states@.len(),
{
    let ghost all = states.deep_view();
    let ghost installed = |entry: (Channel, Selected)| entry.1.current is Some;
    let mut rest = states;
    let mut kept: Vec<(Channel, ChannelState)> = Vec::new();
    let ghost mut at: int = 0;
    assert(all.skip(0) =~= all);
    assert(kept.deep_view() =~= all.take(0).filter(installed)) by {
        reveal(Seq::filter);
        assert(all.take(0).len() == 0);
    }
    while rest.len() > 0
        invariant
            all == states.deep_view(),
            installed == (|entry: (Channel, Selected)| entry.1.current is Some),
            0 <= at <= all.len(),
            rest.deep_view() == all.skip(at),
            kept.deep_view() == all.take(at).filter(installed),
            kept.len() <= at,
            all.len() == states@.len(),
        decreases rest.len(),
    {
        let ghost before = rest.deep_view();
        assert(before.len() == rest.len());
        let ghost had = kept.deep_view();
        let entry = rest.remove(0);
        let ghost shown_entry = entry.deep_view();
        assert(shown_entry == before[0]);
        assert(before[0] == all[at]);
        assert(rest.deep_view() =~= before.skip(1));
        assert(before.skip(1) =~= all.skip(at + 1));
        assert(all.take(at + 1).drop_last() =~= all.take(at));
        assert(all.take(at + 1).last() == all[at]);
        assert(all.take(at + 1).filter(installed) == if installed(all[at]) {
            all.take(at).filter(installed).push(all[at])
        } else {
            all.take(at).filter(installed)
        }) by {
            reveal(Seq::filter);
        }
        proof {
            at = at + 1;
        }
        match &entry.1.current {
            Some(_) => {
                kept.push(entry);
                assert(kept.deep_view() =~= had.push(shown_entry));
            },
            None => {},
        }
    }
    assert(all.take(at) =~= all);
    kept
}

/// Installs the releases that channels offer, up to the first that cannot be installed.
pub open spec fn channels_installed(
    w: World,
    paths: Places,
    setting: Setting,
    states: Seq<(Channel, Selected)>,
) -> (Result<(), Seq<char>>, World)
    decreases states.len(),
{
    if states.len() == 0 {
        (Ok(()), w)
    } else {
        let (installed, after) = channel_installed(w, paths, setting, states[0].0);
        match installed {
            Err(message) => (Err(message), after),
            Ok(()) => channels_installed(after, paths, setting, states.skip(1)),
        }
    }
}

/// What is done for that.
pub open spec fn installs_deeds(
    w: World,
    paths: Places,
    setting: Setting,
    states: Seq<(Channel, Selected)>,
) -> Seq<Deed>
    decreases states.len(),
{
    if states.len() == 0 {
        seq![]
    } else {
        let (installed, after) = channel_installed(w, paths, setting, states[0].0);
        install_deeds(w, paths, setting, states[0].0) + match installed {
            Err(_) => seq![],
            Ok(()) => installs_deeds(after, paths, setting, states.skip(1)),
        }
    }
}

fn install_channels(
    session: &mut Session,
    paths: &Paths,
    setting: &Setting,
    states: &Vec<(Channel, ChannelState)>,
) -> (done: Result<(), Stop>)
    ensures
        ran(
            *old(session),
            *final(session),
            told(done),
            installs_deeds(old(session).world(), paths@, *setting, states.deep_view()),
            channels_installed(old(session).world(), paths@, *setting, states.deep_view()),
        ),
{
    let ghost w = session.world();
    let ghost all = states.deep_view();
    let mut at: usize = 0;
    assert(all.skip(0) =~= all);
    while at < states.len()
        invariant
            at <= states.len(),
            all == states.deep_view(),
            all.len() == states.len(),
            under_way(
                *old(session),
                *session,
                installs_deeds(w, paths@, *setting, all),
                if session.faithful() {
                    installs_deeds(session.world(), paths@, *setting, all.skip(at as int))
                } else {
                    seq![]
                },
            ),
            w == old(session).world(),
            session.faithful() ==> channels_installed(
                session.world(),
                paths@,
                *setting,
                all.skip(at as int),
            ) == channels_installed(w, paths@, *setting, all),
        decreases states.len() - at,
    {
        let channel = states[at].0;
        let ghost rest = all.skip(at as int);
        assert(rest[0].0 == channel);
        assert(rest.skip(1) =~= all.skip(at + 1));
        install_channel(session, paths, setting, channel)?;
        at = at + 1;
    }
    assert(all.skip(at as int) =~= seq![]);
    Ok(())
}

/// Replaces the releases of the selected channels, which must be installed, by those that the
/// channels offer.
pub open spec fn channels_updated(
    w: World,
    paths: Places,
    setting: Setting,
    selection: ChannelSelection,
) -> (Result<(), Seq<char>>, World) {
    match selection {
        ChannelSelection::Channel(channel) => match state_of(w, paths, channel) {
            Err(message) => (Err(message), w),
            Ok(selected) => if selected.current is None {
                (
                    Err(
                        channel.name() + " is not installed; run 'nv install "@ + channel.name()
                            + "' first"@,
                    ),
                    w,
                )
            } else {
                channel_installed(w, paths, setting, channel)
            },
        },
        ChannelSelection::All => match states_of(w, paths) {
            Err(message) => (Err(message), w),
            Ok(states) => if installed_states(states).len() == 0 {
                (
                    Err(
                        "no channels are installed; run 'nv install stable' or 'nv install nightly' first"@,
                    ),
                    w,
                )
            } else {
                channels_installed(w, paths, setting, installed_states(states))
            },
        },
    }
}

/// What is done for that.
pub open spec fn update_deeds(
    w: World,
    paths: Places,
    setting: Setting,
    selection: ChannelSelection,
) -> Seq<Deed> {
    match selection {
        ChannelSelection::Channel(channel) => state_deeds(w, paths, channel) + match state_of(
            w,
            paths,
            channel,
        ) {
            Err(_) => seq![],
            Ok(selected) => if selected.current is None {
                seq![]
            } else {
                install_deeds(w, paths, setting, channel)
            },
        },
        ChannelSelection::All => states_deeds(w, paths) + match states_of(w, paths) {
            Err(_) => seq![],
            Ok(states) => installs_deeds(w, paths, setting, installed_states(states)),
        },
    }
}

/// Replaces the releases of the selected channels, which must be installed, by those that the
/// channels offer.
pub fn update_installed(
    session: &mut Session,
    paths: &Paths,
    setting: &Setting,
    selection: ChannelSelection,
) -> (done: Result<(), Stop>)
    ensures
        ran(
            *old(session),
            *final(session),
            told(done),
            update_deeds(old(session).world(), paths@, *setting, selection),
            channels_updated(old(session).world(), paths@, *setting, selection),
        ),
{
    match selection {
        ChannelSelection::Channel(channel) => {
            if read_channel_state(session, paths, channel)?.current.is_none() {
                return Err(
                    failed(
                        channel.as_str().to_owned().concat(
                            " is not installed; run 'nv install ",
                        ).concat(channel.as_str()).concat("' first"),
                    ),
                );
            }
            install_channel(session, paths, setting, channel)
        },
        ChannelSelection::All => {
            let states = read_all_channel_states(session, paths)?;
            let installed = keep_installed(states);
            assert(installed.deep_view().len() == installed.len());
            if installed.len() == 0 {
                return Err(
                    failed(
                        "no channels are installed; run 'nv install stable' or 'nv install nightly' first".to_owned(),
                    ),
                );
            }
            install_channels(session, paths, setting, &installed)
        },
    }
}

/// Whether a channel is among those in a list.
pub open spec fn is_among(states: Seq<(Channel, Selected)>, channel: Channel) -> bool {
    exists|k: int| 0 <= k < states.len() && (#[trigger] states[k]).0 == channel
}

fn among(states: &Vec<(Channel, ChannelState)>, channel: Channel) -> (yes: bool)
    ensures
        yes == is_among(states.deep_view(), channel),
{
    let ghost all = states.deep_view();
    let mut at: usize = 0;
    while at < states.len()
        invariant
            all == states.deep_view(),
            all.len() == states.len(),
            at <= states.len(),
            forall|k: int| 0 <= k < at ==> (#[trigger] all[k]).0 != channel,
        decreases states.len() - at,
    {
        assert(all[at as int].0 == states@[at as int].0);
        if states[at].0 == channel {
            return true;
        }
        at = at + 1;
    }
    false
}

/// The channels to remove, of which a release must be installed.
pub open spec fn removals(w: World, paths: Places, selection: ChannelSelection) -> Result<
    Seq<(Channel, Selected)>,
    Seq<char>,
> {
    match selection {
        ChannelSelection::Channel(channel) => match state_of(w, paths, channel) {
            Err(message) => Err(message),
            Ok(selected) => if selected.current is None {
                Err(channel.name() + " is not installed"@)
            } else {
                Ok(seq![(channel, selected)])
            },
        },
        ChannelSelection::All => match states_of(w, paths) {
            Err(message) => Err(message),
            Ok(states) => if installed_states(states).len() == 0 {
                Err("no channels are installed"@)
            } else {
                Ok(installed_states(states))
            },
        },
    }
}

/// What is done to find them.
pub open spec fn removals_deeds(w: World, paths: Places, selection: ChannelSelection) -> Seq<Deed> {
    match selection {
        ChannelSelection::Channel(channel) => state_deeds(w, paths, channel),
        ChannelSelection::All => states_deeds(w, paths),
    }
}

fn find_removals(session: &mut Session, paths: &Paths, selection: ChannelSelection) -> (done: Result<
    Vec<(Channel, ChannelState)>,
    Stop,
>)
    ensures
        looked(
            *old(session),
            *final(session),
            told(done),
            removals_deeds(old(session).world(), paths@, selection),
            removals(old(session).world(), paths@, selection),
        ),
{
    match selection {
        ChannelSelection::Channel(channel) => {
            let state = read_channel_state(session, paths, channel)?;
            if state.current.is_none() {
                return Err(
                    failed(channel.as_str().to_owned().concat(" is not installed")),
                );
            }
            let ghost selected = state.deep_view();
            let mut states: Vec<(Channel, ChannelState)> = Vec::new();
            states.push((channel, state));
            assert(states.deep_view() =~= seq![(channel, selected)]);
            Ok(states)
        },
        ChannelSelection::All => {
            let installed = keep_installed(read_all_channel_states(session, paths)?);
            assert(installed.deep_view().len() == installed.len());
            if installed.len() == 0 {
                return Err(failed("no channels are installed".to_owned()));
            }
            Ok(installed)
        },
    }
}

/// Takes the executable away if the channel in use is among those to remove.
pub open spec fn use_ended(w: World, paths: Places, states: Seq<(Channel, Selected)>) -> (
    Result<(), Seq<char>>,
    World,
) {
    match active_channel(w, paths) {
        Err(message) => (Err(message), w),
        Ok(None) => (Ok(()), w),
        Ok(Some(active)) => if !is_among(states, active) {
            (Ok(()), w)
        } else {
            match exposure(w, paths) {
                Err(message) => (Err(message), w),
                Ok(()) => deactivated(w, paths),
            }
        },
    }
}

/// What is done for that.
pub open spec fn ending_deeds(w: World, paths: Places, states: Seq<(Channel, Selected)>) -> Seq<
    Deed,
> {
    active_deeds(w, paths) + match active_channel(w, paths) {
        Ok(Some(active)) => if is_among(states, active) {
            exposure_deeds(w, paths) + match exposure(w, paths) {
                Err(_) => seq![],
                Ok(()) => deactivation_deeds(w, paths),
            }
        } else {
            seq![]
        },
        _ => seq![],
    }
}

fn end_use(session: &mut Session, paths: &Paths, states: &Vec<(Channel, ChannelState)>) -> (done:
    Result<(), Stop>)
    ensures
        ran(
            *old(session),
            *final(session),
            told(done),
            ending_deeds(old(session).world(), paths@, states.deep_view()),
            use_ended(old(session).world(), paths@, states.deep_view()),
        ),
{
    match validate_active_channel(session, paths)? {
        None => Ok(()),
        Some(active) => {
            if !among(states, active) {
                return Ok(());
            }
            validate_nvim_exposure(session, paths)?;
            deactivate(session, paths)
        },
    }
}

/// Removes a link of a channel.
pub open spec fn pointer_removed(w: World, paths: Places, channel: Channel, name: Seq<char>) -> (
    Result<(), Seq<char>>,
    World,
) {
    let link = paths.link_of(channel, name);
    let (removed, after) = w.attempt(Deed::RemoveFile(link));
    match removed {
        Ok(()) => (Ok(()), after),
        Err(cause) => (
            Err(
                "failed to remove "@ + channel.name() + " "@ + name + " pointer "@ + shown(link)
                    + ": "@ + cause,
            ),
            after,
        ),
    }
}

/// Removes a link of a channel.
pub fn remove_channel_pointer(session: &mut Session, paths: &Paths, channel: Channel, name: &str) -> (done:
    Result<(), Stop>)
    ensures
        ran(
            *old(session),
            *final(session),
            told(done),
            seq![Deed::RemoveFile(paths@.link_of(channel, name@))],
            pointer_removed(old(session).world(), paths@, channel, name@),
        ),
{
    let link = paths.channel_link(channel, name);
    match session.attempt(Action::RemoveFile(link.copy()))? {
        Attempt::Done(_) => Ok(()),
        Attempt::Failed(cause) => Err(
            failed(
                "failed to remove ".to_owned().concat(channel.as_str()).concat(" ").concat(
                    name,
                ).concat(" pointer ").concat(link.display().as_str()).concat(": ").concat(
                    cause.as_str(),
                ),
            ),
        ),
    }
}

/// Removes the link to the current release of a channel.
pub open spec fn current_removed(w: World, paths: Places, channel: Channel) -> (
    Result<(), Seq<char>>,
    World,
) {
    let (removed, w1) = pointer_removed(w, paths, channel, "current"@);
    match removed {
        Err(message) => (Err(message), w1),
        Ok(()) => synced(w1, paths.directory_of(channel)),
    }
}

/// Removes the links of a channel, that to the previous release first.
pub open spec fn selection_removed(w: World, paths: Places, channel: Channel, selected: Selected) -> (
    Result<(), Seq<char>>,
    World,
) {
    if selected.previous is Some {
        let (removed, w1) = pointer_removed(w, paths, channel, "previous"@);
        match removed {
            Err(message) => (Err(message), w1),
            Ok(()) => current_removed(w1, paths, channel),
        }
    } else {
        current_removed(w, paths, channel)
    }
}

/// Removes the links of channels, up to the first that cannot be removed.
pub open spec fn selections_removed(w: World, paths: Places, states: Seq<(Channel, Selected)>) -> (
    Result<(), Seq<char>>,
    World,
)
    decreases states.len(),
{
    if states.len() == 0 {
        (Ok(()), w)
    } else {
        let (removed, after) = selection_removed(w, paths, states[0].0, states[0].1);
        match removed {
            Err(message) => (Err(message), after),
            Ok(()) => selections_removed(after, paths, states.skip(1)),
        }
    }
}

/// What is done to remove the link to the current release of a channel.
pub open spec fn current_deeds(w: World, paths: Places, channel: Channel) -> Seq<Deed> {
    seq![Deed::RemoveFile(paths.link_of(channel, "current"@))] + match pointer_removed(
        w,
        paths,
        channel,
        "current"@,
    ).0 {
        Err(_) => seq![],
        Ok(()) => seq![Deed::SyncDirectory(paths.directory_of(channel))],
    }
}

/// What is done to remove the links of a channel.
pub open spec fn selection_deeds(w: World, paths: Places, channel: Channel, selected: Selected) -> Seq<
    Deed,
> {
    if selected.previous is Some {
        let (removed, w1) = pointer_removed(w, paths, channel, "previous"@);
        seq![Deed::RemoveFile(paths.link_of(channel, "previous"@))] + match removed {
            Err(_) => seq![],
            Ok(()) => current_deeds(w1, paths, channel),
        }
    } else {
        current_deeds(w, paths, channel)
    }
}

/// What is done to remove the links of channels.
pub open spec fn selections_deeds(w: World, paths: Places, states: Seq<(Channel, Selected)>) -> Seq<
    Deed,
>
    decreases states.len(),
{
    if states.len() == 0 {
        seq![]
    } else {
        let (removed, after) = selection_removed(w, paths, states[0].0, states[0].1);
        selection_deeds(w, paths, states[0].0, states[0].1) + match removed {
            Err(_) => seq![],
            Ok(()) => selections_deeds(after, paths, states.skip(1)),
        }
    }
}

fn remove_selection(
    session: &mut Session,
    paths: &Paths,
    channel: Channel,
    state: &ChannelState,
) -> (done: Result<(), Stop>)
    ensures
        ran(
            *old(session),
            *final(session),
            told(done),
            selection_deeds(old(session).world(), paths@, channel, state.deep_view()),
            selection_removed(old(session).world(), paths@, channel, state.deep_view()),
        ),
{
    if state.previous.is_some() {
        remove_channel_pointer(session, paths, channel, "previous")?;
    }
    remove_channel_pointer(session, paths, channel, "current")?;
    sync_directory(session, &paths.channel_dir(channel))
}

fn remove_selections(session: &mut Session, paths: &Paths, states: &Vec<(Channel, ChannelState)>) -> (done:
    Result<(), Stop>)
    ensures
        ran(
            *old(session),
            *final(session),
            told(done),
            selections_deeds(old(session).world(), paths@, states.deep_view()),
            selections_removed(old(session).world(), paths@, states.deep_view()),
        ),
{
    let ghost w = session.world();
    let ghost all = states.deep_view();
    let mut at: usize = 0;
    assert(all.skip(0) =~= all);
    while at < states.len()
        invariant
            at <= states.len(),
            all == states.deep_view(),
            all.len() == states.len(),
            under_way(
                *old(session),
                *session,
                selections_deeds(w, paths@, all),
                if session.faithful() {
                    selections_deeds(session.world(), paths@, all.skip(at as int))
                } else {
                    seq![]
                },
            ),
            w == old(session).world(),
            session.faithful() ==> selections_removed(
                session.world(),
                paths@,
                all.skip(at as int),
            ) == selections_removed(w, paths@, all),
        decreases states.len() - at,
    {
        let channel = states[at].0;
        let ghost rest = all.skip(at as int);
        assert(rest[0] == (channel, states@[at as int].1.deep_view()));
        assert(rest.skip(1) =~= all.skip(at + 1));
        remove_selection(session, paths, channel, &states[at].1)?;
        at = at + 1;
    }
    assert(all.skip(at as int) =~= seq![]);
    Ok(())
}

/// Reports the removal of channels.
pub open spec fn removals_told(w: World, states: Seq<(Channel, Selected)>) -> (
    Result<(), Seq<char>>,
    World,
)
    decreases states.len(),
{
    if states.len() == 0 {
        (Ok(()), w)
    } else {
        let (said, after) = printed(w, "removed "@ + states[0].0.name());
        match said {
            Err(message) => (Err(message), after),
            Ok(()) => removals_told(after, states.skip(1)),
        }
    }
}

/// What is done for that.
pub open spec fn report_deeds(w: World, states: Seq<(Channel, Selected)>) -> Seq<Deed>
    decreases states.len(),
{
    if states.len() == 0 {
        seq![]
    } else {
        let line = "removed "@ + states[0].0.name();
        let (said, after) = printed(w, line);
        seq![Deed::Print(line)] + match said {
            Err(_) => seq![],
            Ok(()) => report_deeds(after, states.skip(1)),
        }
    }
}

fn tell_removals(session: &mut Session, states: &Vec<(Channel, ChannelState)>) -> (done: Result<
    (),
    Stop,
>)
    ensures
        ran(
            *old(session),
            *final(session),
            told(done),
            report_deeds(old(session).world(), states.deep_view()),
            removals_told(old(session).world(), states.deep_view()),
        ),
{
    let ghost w = session.world();
    let ghost all = states.deep_view();
    let mut at: usize = 0;
    assert(all.skip(0) =~= all);
    while at < states.len()
        invariant
            at <= states.len(),
            all == states.deep_view(),
            all.len() == states.len(),
            under_way(
                *old(session),
                *session,
                report_deeds(w, all),
                if session.faithful() {
                    report_deeds(session.world(), all.skip(at as int))
                } else {
                    seq![]
                },
            ),
            w == old(session).world(),
            session.faithful() ==> removals_told(session.world(), all.skip(at as int))
                == removals_told(w, all),
        decreases states.len() - at,
    {
        let channel = states[at].0;
        let ghost rest = all.skip(at as int);
        assert(rest[0].0 == channel);
        assert(rest.skip(1) =~= all.skip(at + 1));
        print(session, "removed ".to_owned().concat(channel.as_str()))?;
        at = at + 1;
    }
    assert(all.skip(at as int) =~= seq![]);
    Ok(())
}

/// Removes channels whose executable is not exposed.
pub open spec fn unused_removed(w: World, paths: Places, states: Seq<(Channel, Selected)>) -> (
    Result<(), Seq<char>>,
    World,
) {
    let (removed, w1) = selections_removed(w, paths, states);
    match removed {
        Err(message) => (Err(message), w1),
        Ok(()) => {
            let (cleaned, w2) = installs_cleaned(w1, paths);
            match cleaned {
                Err(message) => (Err(message), w2),
                Ok(()) => removals_told(w2, states),
            }
        },
    }
}

/// Removes the selected channels, which must be installed, and with the channel in use also the
/// executable.
pub open spec fn channels_removed(w: World, paths: Places, selection: ChannelSelection) -> (
    Result<(), Seq<char>>,
    World,
) {
    match removals(w, paths, selection) {
        Err(message) => (Err(message), w),
        Ok(states) => {
            let (ended, w1) = use_ended(w, paths, states);
            match ended {
                Err(message) => (Err(message), w1),
                Ok(()) => unused_removed(w1, paths, states),
            }
        },
    }
}

/// What is done to remove channels whose executable is not exposed.
#[verifier::opaque]
pub open spec fn unused_deeds(w: World, paths: Places, states: Seq<(Channel, Selected)>) -> Seq<
    Deed,
> {
    let (removed, w1) = selections_removed(w, paths, states);
    selections_deeds(w, paths, states) + match removed {
        Err(_) => seq![],
        Ok(()) => {
            let (cleaned, w2) = installs_cleaned(w1, paths);
            cleanup_deeds(w1, paths) + match cleaned {
                Err(_) => seq![],
                Ok(()) => report_deeds(w2, states),
            }
        },
    }
}

/// What is done to remove the selected channels.
#[verifier::opaque]
pub open spec fn remove_deeds(w: World, paths: Places, selection: ChannelSelection) -> Seq<Deed> {
    removals_deeds(w, paths, selection) + match removals(w, paths, selection) {
        Err(_) => seq![],
        Ok(states) => {
            let (ended, w1) = use_ended(w, paths, states);
            ending_deeds(w, paths, states) + match ended {
                Err(_) => seq![],
                Ok(()) => unused_deeds(w1, paths, states),
            }
        },
    }
}

fn remove_unused(session: &mut Session, paths: &Paths, states: &Vec<(Channel, ChannelState)>) -> (done:
    Result<(), Stop>)
    ensures
        ran(
            *old(session),
            *final(session),
            told(done),
            unused_deeds(old(session).world(), paths@, states.deep_view()),
            unused_removed(old(session).world(), paths@, states.deep_view()),
        ),
{
    proof {
        reveal(unused_deeds);
    }
    remove_selections(session, paths, states)?;
    cleanup_unreferenced_installs(session, paths)?;
    tell_removals(session, states)
}

/// Removes the selected channels, which must be installed, and with the channel in use also the
/// executable.
pub fn remove_installed(session: &mut Session, paths: &Paths, selection: ChannelSelection) -> (done:
    Result<(), Stop>)
    ensures
        ran(
            *old(session),
            *final(session),
            told(done),
            remove_deeds(old(session).world(), paths@, selection),
            channels_removed(old(session).world(), paths@, selection),
        ),
{
    proof {
        reveal(remove_deeds);
    }
    let states = find_removals(session, paths, selection)?;
    end_use(session, paths, &states)?;
    remove_unused(session, paths, &states)
}

/// The change by which a channel swaps its two releases.
pub open spec fn swap(channel: Channel, current: Installed, previous: Installed) -> Change {
    Change { channel, current: previous.name, previous: Some(current.name) }
}

/// Reports the release that a channel selects after its releases were swapped.
pub open spec fn swap_told(w: World, paths: Places, channel: Channel) -> (
    Result<(), Seq<char>>,
    World,
) {
    match state_of(w, paths, channel) {
        Err(message) => (Err(message), w),
        Ok(selected) => match selected.current {
            None => (
                Err("rollback left "@ + channel.name() + " without a current installation"@),
                w,
            ),
            Some(current) => {
                let (stored, w1) = synced(w, paths.directory_of(channel));
                match stored {
                    Err(message) => (Err(message), w1),
                    Ok(()) => printed(
                        w1,
                        "rolled back "@ + channel.name() + " to "@ + current.record.version
                            + " (release "@ + current.record.release + ")"@,
                    ),
                }
            },
        },
    }
}

/// Swaps the current and the previous release of a channel.
pub open spec fn channel_rolled_back(w: World, paths: Places, channel: Channel) -> (
    Result<(), Seq<char>>,
    World,
) {
    match state_of(w, paths, channel) {
        Err(message) => (Err(message), w),
        Ok(selected) => match selected.current {
            None => (
                Err("cannot roll back "@ + channel.name() + ": channel is not installed"@),
                w,
            ),
            Some(current) => match selected.previous {
                None => (
                    Err(
                        "cannot roll back "@ + channel.name()
                            + ": no previous installation exists"@,
                    ),
                    w,
                ),
                Some(previous) => {
                    let (committed, w1) = change_committed(
                        w,
                        paths,
                        swap(channel, current, previous),
                    );
                    match committed {
                        Err(message) => (Err(message), w1),
                        Ok(()) => swap_told(w1, paths, channel),
                    }
                },
            },
        },
    }
}

/// What is done to report the release that a channel selects after its releases were swapped.
pub open spec fn swap_deeds(w: World, paths: Places, channel: Channel) -> Seq<Deed> {
    let directory = paths.directory_of(channel);
    state_deeds(w, paths, channel) + match state_of(w, paths, channel) {
        Err(_) => seq![],
        Ok(selected) => match selected.current {
            None => seq![],
            Some(current) => seq![Deed::SyncDirectory(directory)] + match synced(w, directory).0 {
                Err(_) => seq![],
                Ok(()) => seq![
                    Deed::Print(
                        "rolled back "@ + channel.name() + " to "@ + current.record.version
                            + " (release "@ + current.record.release + ")"@,
                    ),
                ],
            },
        },
    }
}

/// What is done to swap the current and the previous release of a channel.
#[verifier::opaque]
pub open spec fn rollback_deeds(w: World, paths: Places, channel: Channel) -> Seq<Deed> {
    state_deeds(w, paths, channel) + match state_of(w, paths, channel) {
        Ok(Selected { current: Some(current), previous: Some(previous) }) => {
            let change = swap(channel, current, previous);
            let (committed, w1) = change_committed(w, paths, change);
            committing_deeds(w, paths, change) + match committed {
                Err(_) => seq![],
                Ok(()) => swap_deeds(w1, paths, channel),
            }
        },
        _ => seq![],
    }
}

fn tell_swap(session: &mut Session, paths: &Paths, channel: Channel) -> (done: Result<(), Stop>)
    ensures
        ran(
            *old(session),
            *final(session),
            told(done),
            swap_deeds(old(session).world(), paths@, channel),
            swap_told(old(session).world(), paths@, channel),
        ),
{
    let new_current = match read_channel_state(session, paths, channel)?.current {
        Some(current) => current,
        None => return Err(
            failed(
                "rollback left ".to_owned().concat(channel.as_str()).concat(
                    " without a current installation",
                ),
            ),
        ),
    };
    sync_directory(session, &paths.channel_dir(channel))?;
    print(
        session,
        "rolled back ".to_owned().concat(channel.as_str()).concat(" to ").concat(
            new_current.metadata.version.as_str(),
        ).concat(" (release ").concat(new_current.metadata.release.as_str()).concat(")"),
    )
}

/// Swaps the current and the previous release of a channel.
pub fn rollback_channel(session: &mut Session, paths: &Paths, channel: Channel) -> (done: Result<
    (),
    Stop,
>)
    ensures
        ran(
            *old(session),
            *final(session),
            told(done),
            rollback_deeds(old(session).world(), paths@, channel),
            channel_rolled_back(old(session).world(), paths@, channel),
        ),
{
    proof {
        reveal(rollback_deeds);
    }
    let state = read_channel_state(session, paths, channel)?;
    let current = match state.current {
        Some(current) => current,
        None => return Err(
            failed(
                "cannot roll back ".to_owned().concat(channel.as_str()).concat(
                    ": channel is not installed",
                ),
            ),
        ),
    };
    let previous = match state.previous {
        Some(previous) => previous,
        None => return Err(
            failed(
                "cannot roll back ".to_owned().concat(channel.as_str()).concat(
                    ": no previous installation exists",
                ),
            ),
        ),
    };
    let transaction = PointerTransaction {
        channel,
        current: previous.directory_name,
        previous: Some(current.directory_name),
    };
    commit_pointer_transaction(session, paths, &transaction)?;
    tell_swap(session, paths, channel)
}

/// The line on a release that a channel selects or not.
pub open spec fn status_line(channel: Channel, name: Seq<char>, installed: Option<Installed>) -> Seq<
    char,
> {
    match installed {
        Some(installed) => channel.name() + " "@ + name + ": release="@
            + installed.record.release + " version="@ + installed.record.version,
        None => channel.name() + " "@ + name + ": none"@,
    }
}

/// Prints the line on a release that a channel selects or not.
pub fn print_status_entry(
    session: &mut Session,
    channel: Channel,
    name: &str,
    installation: &Option<Installation>,
) -> (done: Result<(), Stop>)
    ensures
        ran(
            *old(session),
            *final(session),
            told(done),
            seq![Deed::Print(status_line(channel, name@, installation.deep_view()))],
            printed(
                old(session).world(),
                status_line(channel, name@, installation.deep_view()),
            ),
        ),
{
    let head = channel.as_str().to_owned().concat(" ").concat(name);
    let line = match installation {
        Some(installation) => head.concat(": release=").concat(
            installation.metadata.release.as_str(),
        ).concat(" version=").concat(installation.metadata.version.as_str()),
        None => head.concat(": none"),
    };
    print(session, line)
}

/// Prints lines, up to the first that cannot be printed.
pub open spec fn lines_printed(w: World, lines: Seq<Seq<char>>) -> (Result<(), Seq<char>>, World)
    decreases lines.len(),
{
    if lines.len() == 0 {
        (Ok(()), w)
    } else {
        let (said, after) = printed(w, lines[0]);
        match said {
            Err(message) => (Err(message), after),
            Ok(()) => lines_printed(after, lines.skip(1)),
        }
    }
}

/// What is done for that.
pub open spec fn lines_deeds(w: World, lines: Seq<Seq<char>>) -> Seq<Deed>
    decreases lines.len(),
{
    if lines.len() == 0 {
        seq![]
    } else {
        let (said, after) = printed(w, lines[0]);
        seq![Deed::Print(lines[0])] + match said {
            Err(_) => seq![],
            Ok(()) => lines_deeds(after, lines.skip(1)),
        }
    }
}

/// The lines on the releases that a channel selects.
pub open spec fn status_lines(channel: Channel, selected: Selected) -> Seq<Seq<char>> {
    seq![
        status_line(channel, "current"@, selected.current),
        status_line(channel, "previous"@, selected.previous),
    ]
}

/// The state of a channel of which nothing is installed.
pub open spec fn nothing_selected() -> Selected {
    Selected { current: None, previous: None }
}

/// The status before anything was installed.
pub open spec fn empty_status() -> Seq<Seq<char>> {
    seq!["active: none"@] + status_lines(Channel::Stable, nothing_selected()) + status_lines(
        Channel::Nightly,
        nothing_selected(),
    )
}

/// Prints the status before anything was installed.
pub fn print_empty_status(session: &mut Session) -> (done: Result<(), Stop>)
    ensures
        ran(
            *old(session),
            *final(session),
            told(done),
            lines_deeds(old(session).world(), empty_status()),
            lines_printed(old(session).world(), empty_status()),
        ),
{
    proof {
        reveal_with_fuel(lines_printed, 6);
        reveal_with_fuel(lines_deeds, 6);
        let all = empty_status();
        assert(all.skip(1).skip(1).skip(1).skip(1).skip(1) =~= seq![]);
    }
    print(session, "active: none".to_owned())?;
    print_status_entry(session, Channel::Stable, "current", &None)?;
    print_status_entry(session, Channel::Stable, "previous", &None)?;
    print_status_entry(session, Channel::Nightly, "current", &None)?;
    print_status_entry(session, Channel::Nightly, "previous", &None)
}

/// The name of a channel that may be missing.
pub open spec fn channel_or_none(channel: Option<Channel>) -> Seq<char> {
    match channel {
        Some(channel) => channel.name(),
        None => "none"@,
    }
}

/// Prints what the channels select.
pub open spec fn selections_printed(w: World, paths: Places) -> (Result<(), Seq<char>>, World) {
    match states_of(w, paths) {
        Err(message) => (Err(message), w),
        Ok(states) => lines_printed(
            w,
            status_lines(states[0].0, states[0].1) + status_lines(states[1].0, states[1].1),
        ),
    }
}

/// What is done for that.
pub open spec fn summary_deeds(w: World, paths: Places) -> Seq<Deed> {
    states_deeds(w, paths) + match states_of(w, paths) {
        Err(_) => seq![],
        Ok(states) => lines_deeds(
            w,
            status_lines(states[0].0, states[0].1) + status_lines(states[1].0, states[1].1),
        ),
    }
}

fn print_selections(session: &mut Session, paths: &Paths) -> (done: Result<(), Stop>)
    ensures
        ran(
            *old(session),
            *final(session),
            told(done),
            summary_deeds(old(session).world(), paths@),
            selections_printed(old(session).world(), paths@),
        ),
{
    let states = read_all_channel_states(session, paths)?;
    proof {
        let shown_states = states.deep_view();
        assert(shown_states.len() == 2);
        assert(shown_states[0] == states@[0].deep_view());
        assert(shown_states[1] == states@[1].deep_view());
        let all = status_lines(shown_states[0].0, shown_states[0].1) + status_lines(
            shown_states[1].0,
            shown_states[1].1,
        );
        reveal_with_fuel(lines_printed, 5);
        reveal_with_fuel(lines_deeds, 5);
        assert(all.skip(1).skip(1).skip(1).skip(1) =~= seq![]);
    }
    print_status_entry(session, states[0].0, "current", &states[0].1.current)?;
    print_status_entry(session, states[0].0, "previous", &states[0].1.previous)?;
    print_status_entry(session, states[1].0, "current", &states[1].1.current)?;
    print_status_entry(session, states[1].0, "previous", &states[1].1.previous)
}

/// Prints the channel in use.
pub open spec fn active_printed(w: World, paths: Places, active: Option<Channel>) -> (
    Result<(), Seq<char>>,
    World,
) {
    let (said, w1) = printed(w, "active: "@ + channel_or_none(active));
    match said {
        Err(message) => (Err(message), w1),
        Ok(()) => selections_printed(w1, paths),
    }
}

/// Prints the channel in use and what the channels select.
pub open spec fn status_printed(w: World, paths: Places) -> (Result<(), Seq<char>>, World) {
    match all_directories(w, layout(paths)) {
        Err(message) => (Err(message), w),
        Ok(()) => match active_channel(w, paths) {
            Err(message) => (Err(message), w),
            Ok(active) => if active is Some {
                match exposure(w, paths) {
                    Err(message) => (Err(message), w),
                    Ok(()) => active_printed(w, paths, active),
                }
            } else {
                active_printed(w, paths, active)
            },
        },
    }
}

/// What is done to print the channel in use.
pub open spec fn active_line_deeds(w: World, paths: Places, active: Option<Channel>) -> Seq<Deed> {
    let line = "active: "@ + channel_or_none(active);
    let (said, w1) = printed(w, line);
    seq![Deed::Print(line)] + match said {
        Err(_) => seq![],
        Ok(()) => summary_deeds(w1, paths),
    }
}

fn print_active(session: &mut Session, paths: &Paths, active: Option<Channel>) -> (done: Result<
    (),
    Stop,
>)
    ensures
        ran(
            *old(session),
            *final(session),
            told(done),
            active_line_deeds(old(session).world(), paths@, active),
            active_printed(old(session).world(), paths@, active),
        ),
{
    let shown_active = match active {
        Some(channel) => channel.as_str(),
        None => "none",
    };
    print(session, "active: ".to_owned().concat(shown_active))?;
    print_selections(session, paths)
}

/// What is done to print the channel in use and what the channels select.
#[verifier::opaque]
pub open spec fn status_deeds(w: World, paths: Places) -> Seq<Deed> {
    directory_deeds(w, layout(paths)) + match all_directories(w, layout(paths)) {
        Err(_) => seq![],
        Ok(()) => active_deeds(w, paths) + match active_channel(w, paths) {
            Err(_) => seq![],
            Ok(None) => active_line_deeds(w, paths, None),
            Ok(Some(channel)) => exposure_deeds(w, paths) + match exposure(w, paths) {
                Err(_) => seq![],
                Ok(()) => active_line_deeds(w, paths, Some(channel)),
            },
        },
    }
}

/// Prints the channel in use and what the channels select.
pub fn print_status(session: &mut Session, paths: &Paths) -> (done: Result<(), Stop>)
    ensures
        ran(
            *old(session),
            *final(session),
            told(done),
            status_deeds(old(session).world(), paths@),
            status_printed(old(session).world(), paths@),
        ),
{
    proof {
        reveal(status_deeds);
    }
    validate_layout(session, paths)?;
    let active = validate_active_channel(session, paths)?;
    if active.is_some() {
        validate_nvim_exposure(session, paths)?;
    }
    print_active(session, paths, active)
}

} // verus!
