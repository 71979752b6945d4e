//! Which commands succeed in a state that is as nv leaves it, on a machine on which nothing fails,
//! from their words to what they come to.

use vstd::prelude::*;
use vstd::utf8::*;

use crate::activation::{active_channel, active_target, exposure};
use crate::calm::{calm, lemma_calm_attempt, lemma_calm_sight, lemma_calm_target, links, slot, tidy};
use crate::changes::concerns;
use crate::channel::{Channel, ChannelSelection};
use crate::cli::Cli;
use crate::command_frames::{channel_rolled_back_keeps, use_concerns};
use crate::commands::{channel_or_none, lines_printed, status_lines, status_printed};
use crate::disk::{at, kept, lemma_stored, orderly, selection};
use crate::frames::lock_taken_keeps;
use crate::host::{reaches, Deed, Node, World};
use crate::install::release_line;
use crate::installation::{state_of, states_of, Installed, Selected};
use crate::laws_command::nothing_pending;
use crate::laws_commands::{supported, words_are_carried_out};
use crate::laws_first::{
    dependable, lemma_bin_spared, lemma_destination, lemma_exposable_on, lemma_programs_leave,
    provides, words,
};
use crate::laws_installed::{installable, offered_release_is_installed};
use crate::laws_locked::{lemma_lock_spared, lemma_lock_taken_calmly, operation_succeeds_with_lock};
use crate::laws_refused::is_safe;
use crate::laws_release::record_says_what_was_offered;
use crate::laws_removed::lemma_state_kept;
use crate::laws_rollback::rollback_succeeds;
use crate::laws_use::in_use;
use crate::laws_used::{exposable, installed_channel_is_put_in_use};
use crate::laws_whole::lemma_read_with_lock;
use crate::laws_words::spelling;
use crate::layout::{
    all_directories, lock_taken, printed, some_present, state_root, state_root_prepared,
};
use crate::locate::{below, draft_name, lemma_places};
use crate::path::absolute;
use crate::paths::{layout, places_below, within, Places};
use crate::programs::{programs_present, required_programs, Offer, Setting};
use crate::run::{locked, operated, program_run, Host, Operation};
use crate::separation::lemma_active_spared;
use crate::staging::{staging_created, staging_name};
use crate::text::lines;

verus! {

/// Whether the state is as nv leaves it: it is complete and not locked, no change is pending, what
/// the channels select can be read, and the executable is exposed while a channel is in use.
#[verifier::opaque]
pub open spec fn ready(w: World, paths: Places) -> bool {
    &&& is_safe(w, paths.state)
    &&& all_directories(w, layout(paths)) is Ok
    &&& at(w.nodes, paths.lock) is None
    &&& nothing_pending(w.nodes, paths)
    &&& states_of(w, paths) is Ok
    &&& active_channel(w, paths) is Ok
    &&& active_channel(w, paths)->Ok_0 is Some ==> exposure(w, paths) is Ok
}

/// Whether two worlds are the same but for the lock.
pub open spec fn same_but_lock(before: World, after: World, paths: Places) -> bool {
    &&& after.outside == before.outside
    &&& forall|path: Seq<u8>| path != paths.lock ==> #[trigger] kept(before, after, path)
}

/// What is read after the lock was taken is what was read before.
proof fn lemma_held(w: World, home: Seq<u8>, process: u32)
    requires
        absolute(home),
        calm(w.outside),
        orderly(w.outside, places_below(home)),
        ready(w, places_below(home)),
    ensures
        ({
            let paths = places_below(home);
            let held = lock_taken(w, paths, process).1;
            &&& lock_taken(w, paths, process).0 is Ok
            &&& same_but_lock(w, held, paths)
            &&& all_directories(held, layout(paths)) is Ok
            &&& states_of(held, paths) == states_of(w, paths)
            &&& forall|channel: Channel| #[trigger]
                state_of(held, paths, channel) == state_of(w, paths, channel)
            &&& active_channel(held, paths) == active_channel(w, paths)
            &&& active_channel(w, paths) is Ok
            &&& exposure(w, paths) is Ok ==> exposure(held, paths) is Ok
            &&& state_root(w, paths) is Ok
            &&& at(w.nodes, paths.lock) is None
            &&& nothing_pending(w.nodes, paths)
        }),
{
    reveal(ready);
    let paths = places_below(home);
    let held = lock_taken(w, paths, process).1;
    lemma_lock_taken_calmly(w, paths, process);
    assert forall|path: Seq<u8>| path != paths.lock implies #[trigger] kept(w, held, path) by {
        lock_taken_keeps(w, paths, process, path);
    }
    lemma_read_with_lock(w, held, home);
    assert forall|channel: Channel| #[trigger] state_of(held, paths, channel) == state_of(
        w,
        paths,
        channel,
    ) by {}
}

/// What an operation comes to stays when the lock is given back.
proof fn lemma_after_lock(
    w: World,
    home: Seq<u8>,
    setting: Setting,
    operation: Operation,
    channel: Channel,
)
    requires
        absolute(home),
        calm(w.outside),
        orderly(w.outside, places_below(home)),
        ready(w, places_below(home)),
        ({
            let paths = places_below(home);
            let held = lock_taken(w, paths, setting.process).1;
            let (done, after) = operated(held, paths, setting, operation);
            &&& done is Ok
            &&& after.outside == w.outside
            &&& state_of(after, paths, channel) is Ok
        }),
    ensures
        ({
            let paths = places_below(home);
            let held = lock_taken(w, paths, setting.process).1;
            let before = operated(held, paths, setting, operation).1;
            let (done, after) = locked(w, paths, setting, operation);
            &&& done is Ok
            &&& at(after.nodes, paths.lock) is None
            &&& same_but_lock(before, after, paths)
            &&& state_of(after, paths, channel) == state_of(before, paths, channel)
        }),
{
    let paths = places_below(home);
    let held = lock_taken(w, paths, setting.process).1;
    let before = operated(held, paths, setting, operation).1;
    let after = locked(w, paths, setting, operation).1;
    lemma_held(w, home, setting.process);
    operation_succeeds_with_lock(w, home, setting, operation);
    assert(kept(before, after, paths.active)) by {
        lemma_lock_spared(home, channel);
    }
    lemma_lock_spared(home, channel);
    assert(kept(before, after, paths.link_of(channel, "current"@)));
    assert(kept(before, after, paths.link_of(channel, "previous"@)));
    lemma_state_kept(before, after, home, channel);
}

/// The lock is none of the places that a change is about.
proof fn lemma_tidy_held(before: World, after: World, home: Seq<u8>, channel: Channel)
    requires
        absolute(home),
        same_but_lock(before, after, places_below(home)),
        tidy(before.nodes, places_below(home), channel),
    ensures
        tidy(after.nodes, places_below(home), channel),
{
    let paths = places_below(home);
    lemma_lock_spared(home, channel);
    assert forall|path: Seq<u8>| #[trigger]
        after.nodes.contains_key(path) && concerns(paths, channel, path) implies links(
        paths,
        channel,
    ).contains(path) by {
        assert(path != paths.lock);
        assert(kept(before, after, path));
        assert(before.nodes.contains_key(path));
    }
}

/// `nv rollback` of a channel with two releases succeeds, and swaps them.
#[verifier::rlimit(40)]
#[verifier::spinoff_prover]
pub proof fn rollback_command_succeeds(
    w: World,
    host: Host,
    home: Seq<u8>,
    channel: Channel,
    current: Installed,
    previous: Installed,
)
    requires
        supported(host, home),
        calm(w.outside),
        orderly(w.outside, places_below(home)),
        ready(w, places_below(home)),
        tidy(w.nodes, places_below(home), channel),
        state_of(w, places_below(home), channel) == Ok::<Selected, Seq<char>>(
            Selected { current: Some(current), previous: Some(previous) },
        ),
    ensures
        ({
            let paths = places_below(home);
            let words = seq![encode_utf8("rollback"@), encode_utf8(spelling(channel))];
            let (done, after) = program_run(w, host, words);
            &&& done is Ok
            &&& at(after.nodes, paths.lock) is None
            &&& state_of(after, paths, channel) == Ok::<Selected, Seq<char>>(
                Selected { current: Some(previous), previous: Some(current) },
            )
        }),
{
    let paths = places_below(home);
    let words = seq![encode_utf8("rollback"@), encode_utf8(spelling(channel))];
    let setting = host.setting;
    let operation = Operation::Rollback(channel);
    let held = lock_taken(w, paths, setting.process).1;
    words_are_carried_out(w, host, home, words, Cli::Rollback(channel));
    lemma_held(w, home, setting.process);
    lemma_tidy_held(w, held, home, channel);
    rollback_succeeds(held, home, channel, current, previous);
    lemma_active_spared(home, channel);
    channel_rolled_back_keeps(held, home, channel, paths.active);
    lemma_after_lock(w, home, setting, operation, channel);
}

/// `nv use` of a channel that is installed succeeds, whichever channel is in use, if nothing prevents
/// that the executable is exposed: the channel is then in use, and selects what it selected.
#[verifier::rlimit(40)]
#[verifier::spinoff_prover]
pub proof fn use_command_switches(
    w: World,
    host: Host,
    home: Seq<u8>,
    channel: Channel,
)
    requires
        supported(host, home),
        dependable(w.outside, places_below(home)),
        programs_present(w, required_programs()).0 is Ok,
        ready(w, places_below(home)),
        state_of(w, places_below(home), channel) matches Ok(selected) && selected.current is Some,
        exposable(w, places_below(home)),
        slot(w.nodes, places_below(home).state, "active"@, active_target(channel)),
    ensures
        ({
            let paths = places_below(home);
            let words = seq![encode_utf8("use"@), encode_utf8(spelling(channel))];
            let (done, after) = program_run(w, host, words);
            &&& done is Ok
            &&& in_use(after.nodes, paths, channel)
            &&& at(after.nodes, paths.lock) is None
            &&& state_of(after, paths, channel) == state_of(w, paths, channel)
        }),
{
    let paths = places_below(home);
    let words = seq![encode_utf8("use"@), encode_utf8(spelling(channel))];
    let setting = host.setting;
    let operation = Operation::Use(channel);
    lemma_programs_leave(w, paths, required_programs());
    let w1 = programs_present(w, required_programs()).1;
    lemma_moment(w, w1, home, channel);
    lemma_use_locked(w1, home, setting, channel);
    assert(program_run(w, host, words) == locked(w1, paths, setting, operation)) by {
        words_are_carried_out(w, host, home, words, Cli::Use(channel));
    }
}

/// An installed channel is put in use with the lock around it.
#[verifier::rlimit(40)]
#[verifier::spinoff_prover]
proof fn lemma_use_locked(w: World, home: Seq<u8>, setting: Setting, channel: Channel)
    requires
        absolute(home),
        calm(w.outside),
        orderly(w.outside, places_below(home)),
        ready(w, places_below(home)),
        state_of(w, places_below(home), channel) matches Ok(selected) && selected.current is Some,
        exposable(w, places_below(home)),
        slot(w.nodes, places_below(home).state, "active"@, active_target(channel)),
    ensures
        ({
            let paths = places_below(home);
            let (done, after) = locked(w, paths, setting, Operation::Use(channel));
            &&& done is Ok
            &&& in_use(after.nodes, paths, channel)
            &&& at(after.nodes, paths.lock) is None
            &&& state_of(after, paths, channel) == state_of(w, paths, channel)
        }),
{
    let paths = places_below(home);
    let operation = Operation::Use(channel);
    lemma_held(w, home, setting.process);
    let held = lock_taken(w, paths, setting.process).1;
    lemma_use_held(w, held, home, setting, channel);
    lemma_after_lock(w, home, setting, operation, channel);
    let before = operated(held, paths, setting, operation).1;
    let after = locked(w, paths, setting, operation).1;
    lemma_lock_spared(home, channel);
    assert(kept(before, after, paths.active));
    assert(kept(before, after, paths.nvim_link));
}

/// A later moment in which the disk is the same is as good.
proof fn lemma_moment(w: World, v: World, home: Seq<u8>, channel: Channel)
    requires
        absolute(home),
        calm(w.outside),
        v.nodes == w.nodes,
        v.outside == w.outside,
        ready(w, places_below(home)),
    ensures
        ready(v, places_below(home)),
        state_of(v, places_below(home), channel) == state_of(w, places_below(home), channel),
        state_root_prepared(v, places_below(home)).0 is Ok,
        state_root_prepared(v, places_below(home)).1 == v,
{
    reveal(ready);
    let paths = places_below(home);
    lemma_calm_sight(w, paths.state);
    lemma_calm_sight(v, paths.state);
    lemma_read_with_lock(w, v, home);
}

/// An installed channel is put in use once the lock is taken.
#[verifier::rlimit(40)]
#[verifier::spinoff_prover]
proof fn lemma_use_held(w: World, held: World, home: Seq<u8>, setting: Setting, channel: Channel)
    requires
        absolute(home),
        calm(w.outside),
        same_but_lock(w, held, places_below(home)),
        all_directories(held, layout(places_below(home))) is Ok,
        state_of(held, places_below(home), channel) matches Ok(selected) && selected.current is Some,
        active_channel(held, places_below(home)) is Ok,
        exposable(w, places_below(home)),
        slot(w.nodes, places_below(home).state, "active"@, active_target(channel)),
    ensures
        ({
            let paths = places_below(home);
            let (done, after) = operated(held, paths, setting, Operation::Use(channel));
            &&& done is Ok
            &&& after.outside == w.outside
            &&& in_use(after.nodes, paths, channel)
            &&& state_of(after, paths, channel) == state_of(held, paths, channel)
        }),
{
    let paths = places_below(home);
    let bin = paths.local_bin;
    let current = state_of(held, paths, channel)->Ok_0.current->0;
    let line = release_line(
        channel,
        " is already installed: "@,
        current.record.version,
        current.record.release,
    );
    lemma_calm_sight(held, paths.installs);
    assert(layout(paths)[0] == paths.installs);
    assert(some_present(held, layout(paths))) by {
        reveal_with_fuel(all_directories, 2);
        assert(held.sight(layout(paths)[0]) is Present);
    }
    assert forall|path: Seq<u8>| reaches(bin, path) || reaches(path, bin) implies #[trigger] at(
        held.nodes,
        path,
    ) == at(w.nodes, path) by {
        lemma_bin_spared(home, channel, path);
        assert(kept(w, held, path));
    }
    lemma_exposable_on(w, held, home);
    lemma_destination(held, home);
    lemma_slot_held(w, held, home, active_target(channel));
    lemma_calm_attempt(held, Deed::Print(line));
    lemma_stored(held, Deed::Print(line));
    let told = printed(held, line).1;
    lemma_lock_spared(home, channel);
    lemma_same_read(held, told, home, channel);
    lemma_exposable_on(held, told, home);
    installed_channel_is_put_in_use(told, home, channel);
}

proof fn lemma_same_read(w: World, v: World, home: Seq<u8>, channel: Channel)
    requires
        absolute(home),
        calm(w.outside),
        v.nodes == w.nodes,
        v.outside == w.outside,
        state_of(w, places_below(home), channel) is Ok,
        active_channel(w, places_below(home)) is Ok,
    ensures
        state_of(v, places_below(home), channel) == state_of(w, places_below(home), channel),
        active_channel(v, places_below(home)) is Ok,
{
    let paths = places_below(home);
    lemma_state_kept(w, v, home, channel);
    lemma_calm_sight(w, paths.active);
    lemma_calm_sight(v, paths.active);
    if let Some(Node::Link { target }) = at(w.nodes, paths.active) {
        lemma_calm_target(w, paths.active, target);
        lemma_calm_target(v, paths.active, target);
        if state_of(w, paths, Channel::Stable) is Ok {
            lemma_state_kept(w, v, home, Channel::Stable);
        }
        if state_of(w, paths, Channel::Nightly) is Ok {
            lemma_state_kept(w, v, home, Channel::Nightly);
        }
    }
}

proof fn lemma_slot_held(before: World, after: World, home: Seq<u8>, target: Seq<u8>)
    requires
        absolute(home),
        same_but_lock(before, after, places_below(home)),
        slot(before.nodes, places_below(home).state, "active"@, target),
    ensures
        slot(after.nodes, places_below(home).state, "active"@, target),
{
    let paths = places_below(home);
    let link = below(paths.state, "active"@);
    let draft = below(paths.state, draft_name("active"@));
    lemma_places(home);
    lemma_lock_spared(home, Channel::Stable);
    assert(paths.active == link);
    assert(reaches(link, link) && reaches(draft, draft));
    assert(!use_concerns(paths, paths.lock));
    assert(link != paths.lock && draft != paths.lock);
    assert(kept(before, after, link));
    assert(kept(before, after, draft));
    assert forall|inner: Seq<u8>| #[trigger]
        after.nodes.contains_key(inner) && reaches(link, inner) implies inner == link by {
        assert(inner != paths.lock);
        assert(kept(before, after, inner));
        assert(before.nodes.contains_key(inner));
    }
}

/// `nv update` of a channel that is installed succeeds if the machine provides another release that
/// the channel offers: that release is then current, and the one that was current is the previous
/// one.
#[verifier::rlimit(60)]
#[verifier::spinoff_prover]
pub proof fn update_command_succeeds(
    w: World,
    host: Host,
    home: Seq<u8>,
    channel: Channel,
    selected: Selected,
    time: u128,
    offer: Offer,
    root: Seq<u8>,
    version: Seq<char>,
)
    requires
        supported(host, home),
        dependable(w.outside, places_below(home)),
        programs_present(w, required_programs()).0 is Ok,
        ready(w, places_below(home)),
        state_of(w, places_below(home), channel) == Ok::<Selected, Seq<char>>(selected),
        selected.current is Some,
        ({
            let paths = places_below(home);
            let held = lock_taken(
                programs_present(w, required_programs()).1,
                paths,
                host.setting.process,
            ).1;
            let staging = within(paths.staging, staging_name(channel, host.setting.process, time));
            &&& held.time().0 == Ok::<u128, Seq<char>>(time)
            &&& installable(held, paths, channel, offer.id, staging)
            &&& provides(held, paths, host.setting, channel, offer, root, version)
            &&& staging_created(held, paths, channel, host.setting.process).0 == Ok::<
                Seq<u8>,
                Seq<char>,
            >(staging)
        }),
    ensures
        ({
            let paths = places_below(home);
            let words = seq![encode_utf8("update"@), encode_utf8(spelling(channel))];
            let (done, after) = program_run(w, host, words);
            &&& done is Ok
            &&& at(after.nodes, paths.lock) is None
            &&& state_of(after, paths, channel) matches Ok(now) && {
                &&& now.current matches Some(current) && current.name == spelling(channel) + "-"@
                    + offer.id && current.record.release == offer.id && current.record.sha256
                    == offer.sha256 && current.record.version == version
                &&& now.previous matches Some(previous) && previous.name
                    == selected.current->0.name
            }
        }),
{
    let paths = places_below(home);
    let words = seq![encode_utf8("update"@), encode_utf8(spelling(channel))];
    let setting = host.setting;
    let selection = ChannelSelection::Channel(channel);
    let operation = Operation::Update(selection);
    words_are_carried_out(w, host, home, words, Cli::Update(selection));
    lemma_programs_leave(w, paths, required_programs());
    let w1 = programs_present(w, required_programs()).1;
    lemma_moment(w, w1, home, channel);
    lemma_held(w1, home, setting.process);
    let held = lock_taken(w1, paths, setting.process).1;
    offered_release_is_installed(
        held,
        home,
        setting,
        channel,
        selected,
        time,
        offer,
        root,
        version,
    );
    record_says_what_was_offered(channel, offer, version);
    lemma_after_lock(w1, home, setting, operation, channel);
}

/// `nv status` succeeds, and tells what there is.
#[verifier::rlimit(40)]
#[verifier::spinoff_prover]
pub proof fn status_command_succeeds(w: World, host: Host, home: Seq<u8>)
    requires
        supported(host, home),
        calm(w.outside),
        orderly(w.outside, places_below(home)),
        ready(w, places_below(home)),
    ensures
        program_run(w, host, seq![encode_utf8("status"@)]).0 is Ok,
{
    let paths = places_below(home);
    let setting = host.setting;
    let words = seq![encode_utf8("status"@)];
    lemma_held(w, home, setting.process);
    lemma_status_held(w, home, setting.process);
    operation_succeeds_with_lock(w, home, setting, Operation::Status);
    words_are_carried_out(w, host, home, words, Cli::Status);
    reveal(ready);
}

/// The status is told once the lock is taken.
proof fn lemma_status_held(w: World, home: Seq<u8>, process: u32)
    requires
        absolute(home),
        calm(w.outside),
        orderly(w.outside, places_below(home)),
        ready(w, places_below(home)),
    ensures
        status_printed(
            lock_taken(w, places_below(home), process).1,
            places_below(home),
        ).0 is Ok,
{
    let paths = places_below(home);
    reveal(ready);
    lemma_held(w, home, process);
    let held = lock_taken(w, paths, process).1;
    let active = active_channel(held, paths)->Ok_0;
    let first = "active: "@ + channel_or_none(active);
    lemma_calm_attempt(held, Deed::Print(first));
    lemma_stored(held, Deed::Print(first));
    let told = printed(held, first).1;
    assert(state_of(held, paths, Channel::Stable) == state_of(w, paths, Channel::Stable));
    assert(state_of(held, paths, Channel::Nightly) == state_of(w, paths, Channel::Nightly));
    lemma_state_kept(held, told, home, Channel::Stable);
    lemma_state_kept(held, told, home, Channel::Nightly);
    let states = states_of(told, paths)->Ok_0;
    lemma_lines_calm(
        told,
        status_lines(states[0].0, states[0].1) + status_lines(states[1].0, states[1].1),
    );
}

proof fn lemma_lines_calm(w: World, lines: Seq<Seq<char>>)
    requires
        calm(w.outside),
    ensures
        lines_printed(w, lines).0 is Ok,
    decreases lines.len(),
{
    if lines.len() > 0 {
        lemma_calm_attempt(w, Deed::Print(lines[0]));
        lemma_lines_calm(printed(w, lines[0]).1, lines.skip(1));
    }
}

} // verus!
