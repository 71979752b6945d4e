//! What the words of a command come to: from the arguments of the program to what is on disk and on
//! the terminal.

use vstd::prelude::*;
use vstd::utf8::*;

use crate::channel::{Channel, ChannelSelection};
use crate::cli::{command_line, Cli};
use crate::command_frames::{
    channel_activated_keeps, channel_rolled_back_keeps, deactivated_keeps, unused_removed_keeps,
};
use crate::commands::{channels_installed, channels_removed, channels_updated, removals, use_ended};
use crate::disk::{at, kept, orderly, selection};
use crate::frames::{layout_ensured_keeps, lock_released_keeps, lock_taken_keeps};
use crate::host::{Line, World};
use crate::install::{
    channel_installed, missing_installed, release_added, release_obtained, release_selected,
    release_taken,
};
use crate::install_frames::{
    channel_installed_keeps, install_concluded_keeps, missing_installed_keeps,
    staging_created_keeps, staging_removed_keeps,
};
use crate::installation::{state_of, states_of, Installed, Selected};
use crate::laws::{lemma_link_unused, lemma_selected, lemma_selection_kept, lemma_state_selects};
use crate::laws_command::{
    lemma_before_lock, lemma_link_around, lemma_lock_only, lemma_note_around, nothing_pending,
    programs_present_keeps, rollback_command_swaps, spares,
};
use crate::laws_first::words;
use crate::laws_remove::{lemma_links_are_links, lemma_links_differ};
use crate::laws_status::{only_told, printed_line_is_told, told_lines};
use crate::laws_told::lemma_two_filtered;
use crate::laws_words::{command_is_its_spelling, help, spelling, spells};
use crate::layout::{layout_ensured, lock_taken, state_root_prepared};
use crate::locate::lemma_names;
use crate::path::absolute;
use crate::paths::{places_below, Places};
use crate::pointers::transaction_draft;
use crate::programs::{offer_resolved, programs_present, required_programs, Offer, Setting};
use crate::run::{
    carried_out, locked, operated, program_deeds, program_run, recovered_and_operated, Host,
    Operation,
};
use crate::separation::{lemma_link_place, lemma_links_spared};
use crate::staging::staging_created;

verus! {

/// Whether nv runs where it can: on Linux and x86_64, with an absolute home directory.
pub open spec fn supported(host: Host, home: Seq<u8>) -> bool {
    &&& host.os@ == "linux"@
    &&& host.arch@ == "x86_64"@
    &&& host.home.deep_view() == Some(home)
    &&& home.len() > 0
    &&& home[0] == 47
}

/// A command is carried out below the home directory that the environment names; help is told
/// without any of that. Elsewhere, or without a home directory, every other command is refused and
/// nothing is done.
pub proof fn words_are_carried_out(
    w: World,
    host: Host,
    home: Seq<u8>,
    arguments: Seq<Seq<u8>>,
    cli: Cli,
)
    requires
        spells(arguments, cli),
    ensures
        cli is Help ==> {
            let (done, after) = program_run(w, host, arguments);
            done is Ok ==> only_told(w, after, seq![help()])
        },
        !(cli is Help) && supported(host, home) ==> program_run(w, host, arguments) == carried_out(
            w,
            places_below(home),
            host.setting,
            cli,
        ),
        !(cli is Help) && (host.os@ != "linux"@ || host.arch@ != "x86_64"@) ==> program_run(
            w,
            host,
            arguments,
        ) == (
            Err::<(), Seq<char>>(
                "unsupported platform "@ + host.os@ + " "@ + host.arch@
                    + "; nv supports only Linux x86_64"@,
            ),
            w,
        ),
        !(cli is Help) && !(host.home.deep_view() matches Some(home) && home.len() > 0 && home[0]
            == 47) ==> program_run(w, host, arguments).0 is Err && program_run(
            w,
            host,
            arguments,
        ).1 == w,
{
    command_is_its_spelling(arguments, cli);
    if cli is Help {
        printed_line_is_told(w, help());
        assert(w.output.push(Line::Told(help())) =~= w.output + told_lines(seq![help()]));
    }
}

/// Words that are no command are refused, and nothing is done.
pub proof fn other_words_are_refused(w: World, host: Host, arguments: Seq<Seq<u8>>)
    requires
        forall|cli: Cli| !spells(arguments, cli),
    ensures
        program_run(w, host, arguments).0 is Err,
        program_run(w, host, arguments).1 == w,
        program_deeds(w, host, arguments).len() == 0,
{
    if let Ok(cli) = command_line(arguments) {
        command_is_its_spelling(arguments, cli);
    }
}

/// What comes before an operation and after it leaves alone what the operation leaves alone, where
/// no change is pending.
proof fn lemma_locked_spares(
    w: World,
    home: Seq<u8>,
    setting: Setting,
    operation: Operation,
    path: Seq<u8>,
)
    requires
        absolute(home),
        orderly(w.outside, places_below(home)),
        nothing_pending(w.nodes, places_below(home)),
        path != places_below(home).lock,
        spares(w, places_below(home), setting, operation, path),
    ensures
        kept(w, locked(w, places_below(home), setting, operation).1, path),
{
    let paths = places_below(home);
    lemma_lock_only(w, home, setting, path);
    let w1 = lock_taken(w, paths, setting.process).1;
    lock_taken_keeps(w, paths, setting.process, path);
    let w2 = operated(w1, paths, setting, operation).1;
    let w3 = recovered_and_operated(w1, paths, setting, operation).1;
    lock_released_keeps(w3, paths, path);
}

/// Whatever `nv update` does about one channel, whether it succeeds or not, the links of the other
/// channel stay as they are, where no change is pending.
pub proof fn update_of_one_channel_spares_the_other(
    w: World,
    host: Host,
    home: Seq<u8>,
    channel: Channel,
    other: Channel,
    which: Seq<char>,
)
    requires
        supported(host, home),
        orderly(w.outside, places_below(home)),
        nothing_pending(w.nodes, places_below(home)),
        other != channel,
        which == "current"@ || which == "previous"@,
    ensures
        kept(
            w,
            program_run(
                w,
                host,
                seq![encode_utf8("update"@), encode_utf8(spelling(channel))],
            ).1,
            places_below(home).link_of(other, which),
        ),
{
    let paths = places_below(home);
    let link = paths.link_of(other, which);
    let setting = host.setting;
    let selection = ChannelSelection::Channel(channel);
    let operation = Operation::Update(selection);
    let words = seq![encode_utf8("update"@), encode_utf8(spelling(channel))];
    lemma_names();
    words_are_carried_out(w, host, home, words, Cli::Update(selection));
    lemma_link_around(home, other, which);
    lemma_note_around(home);
    programs_present_keeps(w, paths, required_programs(), link);
    programs_present_keeps(w, paths, required_programs(), paths.transaction);
    programs_present_keeps(w, paths, required_programs(), transaction_draft(paths));
    let w1 = programs_present(w, required_programs()).1;
    lemma_links_spared(home, channel, other, which);
    assert forall|v: World|
        v.outside == w1.outside && at(v.nodes, link) == at(w1.nodes, link) implies kept(
        v,
        (#[trigger] operated(v, paths, setting, operation)).1,
        link,
    ) by {
        channel_installed_keeps(v, home, setting, channel, link);
    }
    lemma_locked_spares(w1, home, setting, operation, link);
}

/// Likewise, whatever `nv rollback` does about one channel, the links of the other stay as they are.
pub proof fn rollback_of_one_channel_spares_the_other(
    w: World,
    host: Host,
    home: Seq<u8>,
    channel: Channel,
    other: Channel,
    which: Seq<char>,
)
    requires
        supported(host, home),
        orderly(w.outside, places_below(home)),
        nothing_pending(w.nodes, places_below(home)),
        other != channel,
        which == "current"@ || which == "previous"@,
    ensures
        kept(
            w,
            program_run(
                w,
                host,
                seq![encode_utf8("rollback"@), encode_utf8(spelling(channel))],
            ).1,
            places_below(home).link_of(other, which),
        ),
{
    let paths = places_below(home);
    let link = paths.link_of(other, which);
    let setting = host.setting;
    let operation = Operation::Rollback(channel);
    let words = seq![encode_utf8("rollback"@), encode_utf8(spelling(channel))];
    lemma_names();
    words_are_carried_out(w, host, home, words, Cli::Rollback(channel));
    lemma_link_around(home, other, which);
    lemma_links_spared(home, channel, other, which);
    assert forall|v: World|
        v.outside == w.outside && at(v.nodes, link) == at(w.nodes, link) implies kept(
        v,
        (#[trigger] operated(v, paths, setting, operation)).1,
        link,
    ) by {
        channel_rolled_back_keeps(v, home, channel, link);
    }
    lemma_locked_spares(w, home, setting, operation, link);
}

/// `nv rollback` that succeeds swaps the two releases of the channel that it names.
pub proof fn rollback_words_swap(w: World, host: Host, home: Seq<u8>, channel: Channel)
    requires
        supported(host, home),
        orderly(w.outside, places_below(home)),
        nothing_pending(w.nodes, places_below(home)),
        program_run(
            w,
            host,
            seq![encode_utf8("rollback"@), encode_utf8(spelling(channel))],
        ).0 is Ok,
    ensures
        ({
            let paths = places_below(home);
            let after = program_run(
                w,
                host,
                seq![encode_utf8("rollback"@), encode_utf8(spelling(channel))],
            ).1;
            let current = selection(w.nodes, paths, channel, "current"@);
            let previous = selection(w.nodes, paths, channel, "previous"@);
            &&& current is Some && previous is Some && current != previous
            &&& selection(after.nodes, paths, channel, "current"@) == previous
            &&& selection(after.nodes, paths, channel, "previous"@) == current
        }),
{
    let words = seq![encode_utf8("rollback"@), encode_utf8(spelling(channel))];
    words_are_carried_out(w, host, home, words, Cli::Rollback(channel));
    rollback_command_swaps(w, home, host.setting, channel);
}

/// Whether a channel selects the offered release and keeps the one that it had: it selects it
/// already if number and digest are the same, and else the links are changed.
pub open spec fn follows_offer(
    before: World,
    after: World,
    paths: Places,
    channel: Channel,
    had: Option<Installed>,
    offer: Offer,
) -> bool {
    let name = spelling(channel) + "-"@ + offer.id;
    if had matches Some(installed) && installed.record.release == offer.id
        && installed.record.sha256 == offer.sha256 {
        &&& kept(before, after, paths.link_of(channel, "current"@))
        &&& kept(before, after, paths.link_of(channel, "previous"@))
    } else {
        &&& selection(after.nodes, paths, channel, "current"@) == Some(name)
        &&& match had {
            Some(had) => selection(after.nodes, paths, channel, "previous"@) == Some(had.name),
            None => at(after.nodes, paths.link_of(channel, "previous"@)) is None,
        }
    }
}

/// An installation or an update of a channel that succeeds follows what the channel offers: where
/// the offered release is not the current one, it becomes so, and the one that was current becomes
/// the previous one.
#[verifier::rlimit(40)]
#[verifier::spinoff_prover]
pub proof fn installation_follows_the_offer(
    w: World,
    home: Seq<u8>,
    setting: Setting,
    channel: Channel,
)
    requires
        absolute(home),
        orderly(w.outside, places_below(home)),
        channel_installed(w, places_below(home), setting, channel).0 is Ok,
    ensures
        ({
            let paths = places_below(home);
            let after = channel_installed(w, paths, setting, channel).1;
            let (created, w1) = staging_created(w, paths, channel, setting.process);
            &&& state_of(w, paths, channel) is Ok
            &&& created is Ok
            &&& offer_resolved(w1, setting, channel, created->Ok_0).0 matches Ok(offer)
                && follows_offer(
                w,
                after,
                paths,
                channel,
                state_of(w, paths, channel)->Ok_0.current,
                offer,
            )
        }),
{
    let paths = places_below(home);
    let after = channel_installed(w, paths, setting, channel).1;
    let current = paths.link_of(channel, "current"@);
    let previous = paths.link_of(channel, "previous"@);
    lemma_names();
    lemma_link_place(home, channel, "current"@);
    lemma_link_place(home, channel, "previous"@);
    lemma_state_selects(w, paths, channel);
    let had = state_of(w, paths, channel)->Ok_0.current;
    staging_created_keeps(w, home, channel, setting.process, current);
    staging_created_keeps(w, home, channel, setting.process, previous);
    let (created, w1) = staging_created(w, paths, channel, setting.process);
    let staging = created->Ok_0;
    lemma_selected(w1, home, setting, channel, had, staging);
    lemma_chosen(w1, home, setting, channel, had, staging);
    let (chosen, w2) = release_selected(w1, paths, setting, channel, had, staging);
    match chosen->Ok_0 {
        None => {
            staging_removed_keeps(w2, paths, staging, current);
            staging_removed_keeps(w2, paths, staging, previous);
        },
        Some(record) => {
            install_concluded_keeps(w2, home, channel, record, staging, current);
            install_concluded_keeps(w2, home, channel, record, staging, previous);
            lemma_selection_kept(w2, after, paths, channel, "current"@);
            lemma_selection_kept(w2, after, paths, channel, "previous"@);
        },
    }
}

/// Which release is chosen: none anew if the channel selects the offered one, and else that one.
#[verifier::rlimit(40)]
#[verifier::spinoff_prover]
proof fn lemma_chosen(
    w: World,
    home: Seq<u8>,
    setting: Setting,
    channel: Channel,
    had: Option<Installed>,
    staging: Seq<u8>,
)
    requires
        absolute(home),
    ensures
        ({
            let paths = places_below(home);
            let chosen = release_selected(w, paths, setting, channel, had, staging).0;
            let resolved = offer_resolved(w, setting, channel, staging).0;
            chosen matches Ok(found) ==> (resolved matches Ok(offer) && match found {
                None => had matches Some(installed) && installed.record.release == offer.id
                    && installed.record.sha256 == offer.sha256,
                Some(record) => {
                    &&& !(had matches Some(installed) && installed.record.release == offer.id
                        && installed.record.sha256 == offer.sha256)
                    &&& record.release == offer.id
                    &&& record.sha256 == offer.sha256
                },
            })
        }),
{
    reveal(release_selected);
    reveal(release_taken);
    reveal(release_obtained);
    reveal(release_added);
}

/// Whether an update has reached a channel: from some moment at which its links were still as they
/// had been, the release that it offers was installed, and its links are as that has left them.
pub open spec fn reached(
    before: World,
    after: World,
    paths: Places,
    setting: Setting,
    channel: Channel,
) -> bool {
    exists|v: World| #[trigger]
        installs(v, paths, setting, channel) && v.outside == before.outside && same_links(
            before,
            v,
            paths,
            channel,
        ) && same_links(channel_installed(v, paths, setting, channel).1, after, paths, channel)
}

/// Whether the installation of what a channel offers succeeds.
pub open spec fn installs(v: World, paths: Places, setting: Setting, channel: Channel) -> bool {
    channel_installed(v, paths, setting, channel).0 is Ok
}

/// Whether the links of a channel are the same.
pub open spec fn same_links(before: World, after: World, paths: Places, channel: Channel) -> bool {
    &&& at(after.nodes, paths.link_of(channel, "current"@)) == at(
        before.nodes,
        paths.link_of(channel, "current"@),
    )
    &&& at(after.nodes, paths.link_of(channel, "previous"@)) == at(
        before.nodes,
        paths.link_of(channel, "previous"@),
    )
}

/// An update of all channels that succeeds reaches every channel that is installed, and leaves the
/// links of the others as they are.
pub proof fn update_of_all_reaches_each(w: World, home: Seq<u8>, setting: Setting, channel: Channel)
    requires
        absolute(home),
        orderly(w.outside, places_below(home)),
        channels_updated(w, places_below(home), setting, ChannelSelection::All).0 is Ok,
    ensures
        ({
            let paths = places_below(home);
            let after = channels_updated(w, paths, setting, ChannelSelection::All).1;
            state_of(w, paths, channel) matches Ok(selected) && if selected.current is Some {
                reached(w, after, paths, setting, channel)
            } else {
                same_links(w, after, paths, channel)
            }
        }),
{
    let paths = places_below(home);
    let all = states_of(w, paths)->Ok_0;
    let wanted = |entry: (Channel, Selected)| entry.1.current is Some;
    let installed = all.filter(wanted);
    let stable = state_of(w, paths, Channel::Stable)->Ok_0;
    let nightly = state_of(w, paths, Channel::Nightly)->Ok_0;
    let after = channels_updated(w, paths, setting, ChannelSelection::All).1;
    lemma_two_filtered(all, wanted);
    assert(all[0] == (Channel::Stable, stable) && all[1] == (Channel::Nightly, nightly));
    reveal_with_fuel(channels_installed, 3);
    lemma_other_links(w, home, setting, Channel::Stable, Channel::Nightly);
    lemma_other_links(w, home, setting, Channel::Nightly, Channel::Stable);
    let w1 = channel_installed(w, paths, setting, Channel::Stable).1;
    lemma_other_links(w1, home, setting, Channel::Nightly, Channel::Stable);
    if stable.current is Some {
        assert(installed[0] == all[0]);
        assert(installs(w, paths, setting, Channel::Stable));
        if nightly.current is Some {
            assert(installed.skip(1)[0] == all[1]);
            assert(installed.skip(1).skip(1).len() == 0);
            assert(after == channel_installed(w1, paths, setting, Channel::Nightly).1);
            assert(installs(w1, paths, setting, Channel::Nightly));
        } else {
            assert(installed.skip(1).len() == 0);
            assert(after == w1);
        }
    } else {
        assert(installed[0] == all[1]);
        assert(installed.skip(1).len() == 0);
        assert(installs(w, paths, setting, Channel::Nightly));
        assert(after == channel_installed(w, paths, setting, Channel::Nightly).1);
    }
}

proof fn lemma_other_links(
    w: World,
    home: Seq<u8>,
    setting: Setting,
    channel: Channel,
    other: Channel,
)
    requires
        absolute(home),
        orderly(w.outside, places_below(home)),
        other != channel,
    ensures
        same_links(
            w,
            channel_installed(w, places_below(home), setting, channel).1,
            places_below(home),
            other,
        ),
        channel_installed(w, places_below(home), setting, channel).1.outside == w.outside,
{
    let paths = places_below(home);
    lemma_names();
    lemma_links_spared(home, channel, other, "current"@);
    lemma_links_spared(home, channel, other, "previous"@);
    channel_installed_keeps(w, home, setting, channel, paths.link_of(other, "current"@));
    channel_installed_keeps(w, home, setting, channel, paths.link_of(other, "previous"@));
}

/// An update of one channel is the installation of what that channel offers, if it is installed.
pub proof fn update_of_one_is_its_installation(
    w: World,
    paths: Places,
    setting: Setting,
    channel: Channel,
)
    ensures
        state_of(w, paths, channel) matches Ok(selected) ==> (selected.current is Some
            ==> channels_updated(w, paths, setting, ChannelSelection::Channel(channel))
            == channel_installed(w, paths, setting, channel)),
{
}

/// For a channel without a release, the one that it offers is installed.
pub proof fn missing_release_is_installed(w: World, paths: Places, setting: Setting, channel: Channel)
    ensures
        state_of(w, paths, channel) matches Ok(selected) ==> (selected.current is None
            ==> missing_installed(w, paths, setting, channel) == channel_installed(
            w,
            paths,
            setting,
            channel,
        )),
{
}

/// Whether a command installs, uses or removes one channel.
pub open spec fn is_about(cli: Cli, channel: Channel) -> bool {
    cli == Cli::Install(channel) || cli == Cli::Use(channel) || cli == Cli::Remove(
        ChannelSelection::Channel(channel),
    )
}

/// Neither do the installation, the use or the removal of one channel touch the links of the other,
/// whether they succeed or not, where no change is pending.
#[verifier::rlimit(40)]
#[verifier::spinoff_prover]
pub proof fn command_about_one_channel_spares_the_other(
    w: World,
    host: Host,
    home: Seq<u8>,
    arguments: Seq<Seq<u8>>,
    cli: Cli,
    channel: Channel,
    other: Channel,
    which: Seq<char>,
)
    requires
        supported(host, home),
        spells(arguments, cli),
        is_about(cli, channel),
        orderly(w.outside, places_below(home)),
        nothing_pending(w.nodes, places_below(home)),
        other != channel,
        which == "current"@ || which == "previous"@,
    ensures
        kept(
            w,
            program_run(w, host, arguments).1,
            places_below(home).link_of(other, which),
        ),
{
    let paths = places_below(home);
    let link = paths.link_of(other, which);
    let setting = host.setting;
    lemma_names();
    words_are_carried_out(w, host, home, arguments, cli);
    lemma_link_around(home, other, which);
    lemma_note_around(home);
    lemma_before_lock(w, home, link);
    lemma_before_lock(w, home, paths.transaction);
    lemma_before_lock(w, home, transaction_draft(paths));
    let w1 = programs_present(w, required_programs()).1;
    let w2 = state_root_prepared(w1, paths).1;
    if cli is Remove {
        let operation = Operation::Remove(ChannelSelection::Channel(channel));
        assert forall|v: World|
            v.outside == w.outside && at(v.nodes, link) == at(w.nodes, link) implies kept(
            v,
            (#[trigger] operated(v, paths, setting, operation)).1,
            link,
        ) by {
            lemma_removal_spares(v, home, channel, other, which);
        }
        lemma_locked_spares(w, home, setting, operation, link);
    } else {
        let operation = if cli is Use {
            Operation::Use(channel)
        } else {
            Operation::Install(channel)
        };
        assert forall|v: World|
            v.outside == w2.outside && at(v.nodes, link) == at(w2.nodes, link) implies kept(
            v,
            (#[trigger] operated(v, paths, setting, operation)).1,
            link,
        ) by {
            lemma_installation_spares(v, home, setting, channel, other, which);
        }
        lemma_locked_spares(w2, home, setting, operation, link);
    }
}

proof fn lemma_removal_spares(
    w: World,
    home: Seq<u8>,
    channel: Channel,
    other: Channel,
    which: Seq<char>,
)
    requires
        absolute(home),
        orderly(w.outside, places_below(home)),
        other != channel,
        which == "current"@ || which == "previous"@,
    ensures
        kept(
            w,
            channels_removed(w, places_below(home), ChannelSelection::Channel(channel)).1,
            places_below(home).link_of(other, which),
        ),
{
    let paths = places_below(home);
    let link = paths.link_of(other, which);
    lemma_names();
    lemma_links_are_links(home);
    if let Ok(states) = removals(w, paths, ChannelSelection::Channel(channel)) {
        lemma_links_differ(home, channel, other);
        deactivated_keeps(w, paths, link);
        let w1 = use_ended(w, paths, states).1;
        assert forall|k: int| 0 <= k < states.len() implies link != paths.link_of(
            (#[trigger] states[k]).0,
            "current"@,
        ) && link != paths.link_of(states[k].0, "previous"@) by {}
        unused_removed_keeps(w1, home, states, link);
    }
}

proof fn lemma_installation_spares(
    w: World,
    home: Seq<u8>,
    setting: Setting,
    channel: Channel,
    other: Channel,
    which: Seq<char>,
)
    requires
        absolute(home),
        orderly(w.outside, places_below(home)),
        other != channel,
        which == "current"@ || which == "previous"@,
    ensures
        ({
            let paths = places_below(home);
            let link = paths.link_of(other, which);
            &&& kept(w, operated(w, paths, setting, Operation::Install(channel)).1, link)
            &&& kept(w, operated(w, paths, setting, Operation::Use(channel)).1, link)
        }),
{
    let paths = places_below(home);
    let link = paths.link_of(other, which);
    lemma_names();
    lemma_link_place(home, other, which);
    lemma_links_spared(home, channel, other, which);
    lemma_link_unused(home, other, which);
    layout_ensured_keeps(w, paths, link);
    let w1 = layout_ensured(w, paths).1;
    missing_installed_keeps(w1, home, setting, channel, link);
    let w2 = missing_installed(w1, paths, setting, channel).1;
    channel_activated_keeps(w2, home, channel, link);
}

} // verus!
