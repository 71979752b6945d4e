//! Which programs are run at all.

use vstd::prelude::*;
use vstd::utf8::*;

use crate::activation::{
    activation_deeds, active_channel, active_deeds, active_target, bin_prepared, destination_deeds,
    exposing_deeds, exposure_deeds, nvim_linked,
};
use crate::allowed::{
    allowed, channel_request, group_proper, in_order, offer_request, own_version_request, proper,
};
use crate::channel::{Channel, ChannelSelection};
use crate::cleanup::{cleanup_deeds, clearing_deeds, installs_cleaned, search_deeds, unreferenced};
use crate::cli::{command_line, Cli};
use crate::commands::{
    channel_or_none, empty_status, installed_states, installs_deeds, lines_deeds, removals,
    remove_deeds, report_deeds, rollback_deeds, selection_removed, selections_deeds,
    selections_removed, status_deeds, status_lines, swap, unused_deeds, update_deeds, use_ended,
};
use crate::disk::selection;
use crate::host::{Deed, Invocation, Names, World};
use crate::install::{
    adding_deeds, archive_fetched, channel_installed, choosing_deeds, conclusion_deeds,
    extraction_deeds, fetching_deeds, install_deeds, missing_deeds, missing_installed,
    obtaining_deeds, publication_deeds, record_of, release_obtained, release_selected,
    release_staged, renewal_deeds, taking_deeds,
};
use crate::installation::{
    installation_deeds, state_deeds, state_of, states_deeds, states_of, Installed, Selected,
};
use crate::laws_offer::{
    archive_is_asked_for, description_address, description_request, digest_request, fit,
    helpers_are_asked, lemma_description_request, offer_is_that_of_the_channel,
    offer_is_what_its_lines_say, selection_request, unpacking_request, wrote,
};
use crate::laws_order::lemma_state_runs_nothing;
use crate::laws_refused::presence_request;
use crate::laws_words::{channels_are_described_apart, command_is_its_spelling, spells};
use crate::layout::{
    directory_deeds, inspections, layout_deeds, layout_ensured, lock_taken, making_deeds, printed,
    private_made, state_root_prepared,
};
use crate::metadata::Record;
use crate::path::joined;
use crate::paths::{layout, link_target, places_of, within, NVIM_LINK_TARGET, Places};
use crate::pointers::{
    change_committed, change_recovered, closing_deeds, committing_deeds, finishing_deeds,
    following_deeds, link_replaced, note_written, noting_deeds, recovery_deeds, replacement,
    replacing_deeds, second_half_deeds, transaction_draft,
};
use crate::programs::{
    offer_deeds, offer_in, offer_resolved, presence_deeds, program_present, programs_present,
    required_programs, staged_check, version_check, Offer, Setting,
};
use crate::release::ASSET_NAME;
use crate::run::{
    beginning_deeds, command_deeds, continuing_deeds, locked_deeds, operation_deeds, program_deeds,
    recovered_deeds, showing_deeds, use_deeds, Host, Operation,
};
use crate::staging::staging_created;
use crate::text::lines;
use crate::transaction::{change_in, Change};

verus! {

broadcast use group_proper;

proof fn lemma_state(w: World, paths: Places, channel: Channel, programs: bool)
    ensures
        proper(state_deeds(w, paths, channel), programs),
{
    reveal(proper);
    lemma_state_runs_nothing(w, paths, channel);
    let deeds = state_deeds(w, paths, channel);
    assert forall|k: int| 0 <= k < deeds.len() implies in_order(#[trigger] deeds[k], programs) by {
        assert(!(deeds[k] is Run));
    }
}

proof fn lemma_states(w: World, paths: Places, programs: bool)
    ensures
        proper(states_deeds(w, paths), programs),
{
    lemma_state(w, paths, Channel::Stable, programs);
    lemma_state(w, paths, Channel::Nightly, programs);
}

proof fn lemma_installation(
    w: World,
    paths: Places,
    path: Seq<u8>,
    expected: Option<Channel>,
    programs: bool,
)
    ensures
        proper(installation_deeds(w, paths, path, expected), programs),
{
    reveal(installation_deeds);
}

proof fn lemma_replacing(w: World, link: Seq<u8>, target: Seq<u8>, programs: bool)
    ensures
        proper(replacing_deeds(w, link, target), programs),
{
}

proof fn lemma_closing(w: World, paths: Places, change: Change, programs: bool)
    ensures
        proper(closing_deeds(w, paths, change), programs),
{
    lemma_state(w, paths, change.channel, programs);
}

proof fn lemma_second_half(w: World, paths: Places, change: Change, programs: bool)
    ensures
        proper(second_half_deeds(w, paths, change), programs),
{
    let link = paths.link_of(change.channel, "current"@);
    let target = link_target(change.current);
    lemma_replacing(w, link, target, programs);
    lemma_closing(link_replaced(w, link, target).1, paths, change, programs);
}

proof fn lemma_finishing_runs(w: World, paths: Places, change: Change, programs: bool)
    ensures
        proper(finishing_deeds(w, paths, change), programs),
{
    let channel = change.channel;
    lemma_installation(
        w,
        paths,
        within(paths.installs, change.current),
        Some(channel),
        programs,
    );
    lemma_second_half(w, paths, change, programs);
    if let Some(previous) = change.previous {
        let link = paths.link_of(channel, "previous"@);
        lemma_installation(w, paths, within(paths.installs, previous), Some(channel), programs);
        lemma_replacing(w, link, link_target(previous), programs);
        lemma_second_half(
            link_replaced(w, link, link_target(previous)).1,
            paths,
            change,
            programs,
        );
    }
}

proof fn lemma_noting_runs(w: World, paths: Places, change: Change, programs: bool)
    ensures
        proper(noting_deeds(w, paths, change), programs),
{
}

proof fn lemma_committing(w: World, paths: Places, change: Change, programs: bool)
    ensures
        proper(committing_deeds(w, paths, change), programs),
{
    reveal(committing_deeds);
    lemma_noting_runs(w, paths, change, programs);
    lemma_finishing_runs(note_written(w, paths, change).1, paths, change, programs);
}

proof fn lemma_following(w: World, paths: Places, programs: bool)
    ensures
        proper(following_deeds(w, paths), programs),
{
    if let Ok(text) = w.text(paths.transaction) {
        if let Ok(change) = change_in(text, paths.transaction) {
            lemma_finishing_runs(w, paths, change, programs);
        }
    }
}

proof fn lemma_recovery(w: World, paths: Places, programs: bool)
    ensures
        proper(recovery_deeds(w, paths), programs),
{
    reveal(recovery_deeds);
    lemma_following(w, paths, programs);
    lemma_following(
        w.attempt(Deed::RemoveFile(transaction_draft(paths))).1,
        paths,
        programs,
    );
}

proof fn lemma_active(w: World, paths: Places, programs: bool)
    ensures
        proper(active_deeds(w, paths), programs),
{
    lemma_state(w, paths, Channel::Stable, programs);
    lemma_state(w, paths, Channel::Nightly, programs);
}

proof fn lemma_activation(w: World, paths: Places, channel: Channel, programs: bool)
    ensures
        proper(activation_deeds(w, paths, channel), programs),
{
    reveal(activation_deeds);
    let target = active_target(channel);
    lemma_state(w, paths, channel, programs);
    lemma_active(w, paths, programs);
    lemma_exposing(w, paths, programs);
    let w1 = nvim_linked(w, paths).1;
    lemma_replacing(w1, paths.active, target, programs);
    lemma_active(link_replaced(w1, paths.active, target).1, paths, programs);
}

proof fn lemma_exposing(w: World, paths: Places, programs: bool)
    ensures
        proper(exposing_deeds(w, paths), programs),
        proper(destination_deeds(w, paths), programs),
        proper(exposure_deeds(w, paths), programs),
{
    let w1 = bin_prepared(w, paths).1;
    lemma_replacing(w1, paths.nvim_link, encode_utf8(NVIM_LINK_TARGET@), programs);
}

proof fn lemma_search(w: World, paths: Places, names: Seq<Seq<u8>>, programs: bool)
    ensures
        proper(search_deeds(w, paths, names), programs),
    decreases names.len(),
{
    if names.len() > 0 {
        lemma_installation(w, paths, joined(paths.installs, names[0]), None, programs);
        lemma_search(w, paths, names.skip(1), programs);
    }
}

proof fn lemma_clearing(w: World, trees: Seq<Seq<u8>>, programs: bool)
    ensures
        proper(clearing_deeds(w, trees), programs),
    decreases trees.len(),
{
    if trees.len() > 0 {
        lemma_clearing(w.attempt(Deed::RemoveTree(trees[0])).1, trees.skip(1), programs);
    }
}

proof fn lemma_cleanup(w: World, paths: Places, programs: bool)
    ensures
        proper(cleanup_deeds(w, paths), programs),
{
    reveal(cleanup_deeds);
    lemma_states(w, paths, programs);
    if let Ok(states) = states_of(w, paths) {
        if let Names::Names(names) = w.listing(paths.installs) {
            lemma_search(w, paths, names, programs);
            if let Ok(trees) = unreferenced(w, paths, states, names) {
                lemma_clearing(w, trees, programs);
            }
        }
    }
}

proof fn lemma_selections(w: World, paths: Places, states: Seq<(Channel, Selected)>, programs: bool)
    ensures
        proper(selections_deeds(w, paths, states), programs),
    decreases states.len(),
{
    if states.len() > 0 {
        let after = selection_removed(w, paths, states[0].0, states[0].1).1;
        lemma_selections(after, paths, states.skip(1), programs);
    }
}

proof fn lemma_report(w: World, states: Seq<(Channel, Selected)>, programs: bool)
    ensures
        proper(report_deeds(w, states), programs),
    decreases states.len(),
{
    if states.len() > 0 {
        let line = "removed "@ + states[0].0.name();
        lemma_report(printed(w, line).1, states.skip(1), programs);
    }
}

proof fn lemma_removal(w: World, paths: Places, selection: ChannelSelection, programs: bool)
    ensures
        proper(remove_deeds(w, paths, selection), programs),
{
    reveal(remove_deeds);
    reveal(unused_deeds);
    lemma_states(w, paths, programs);
    lemma_state(w, paths, Channel::Stable, programs);
    lemma_state(w, paths, Channel::Nightly, programs);
    if let Ok(states) = removals(w, paths, selection) {
        lemma_active(w, paths, programs);
        lemma_exposing(w, paths, programs);
        let w1 = use_ended(w, paths, states).1;
        lemma_selections(w1, paths, states, programs);
        let w2 = selections_removed(w1, paths, states).1;
        lemma_cleanup(w2, paths, programs);
        lemma_report(installs_cleaned(w2, paths).1, states, programs);
    }
}

proof fn lemma_rollback(w: World, paths: Places, channel: Channel, programs: bool)
    ensures
        proper(rollback_deeds(w, paths, channel), programs),
{
    reveal(rollback_deeds);
    lemma_state(w, paths, channel, programs);
    if let Ok(Selected { current: Some(current), previous: Some(previous) }) = state_of(
        w,
        paths,
        channel,
    ) {
        let change = swap(channel, current, previous);
        lemma_committing(w, paths, change, programs);
        lemma_state(change_committed(w, paths, change).1, paths, channel, programs);
    }
}

proof fn lemma_lines(w: World, lines: Seq<Seq<char>>, programs: bool)
    ensures
        proper(lines_deeds(w, lines), programs),
    decreases lines.len(),
{
    if lines.len() > 0 {
        lemma_lines(printed(w, lines[0]).1, lines.skip(1), programs);
    }
}

proof fn lemma_directories(w: World, paths: Seq<Seq<u8>>, programs: bool)
    ensures
        proper(directory_deeds(w, paths), programs),
        proper(making_deeds(w, paths), programs),
        proper(inspections(paths), programs),
    decreases paths.len(),
{
    reveal(proper);
    if paths.len() > 0 {
        lemma_directories(w, paths.skip(1), programs);
        lemma_directories(private_made(w, paths[0]).1, paths.skip(1), programs);
    }
}

proof fn lemma_status(w: World, paths: Places, programs: bool)
    ensures
        proper(status_deeds(w, paths), programs),
{
    reveal(status_deeds);
    lemma_directories(w, layout(paths), programs);
    lemma_active(w, paths, programs);
    lemma_exposing(w, paths, programs);
    if let Ok(active) = active_channel(w, paths) {
        let w1 = printed(w, "active: "@ + channel_or_none(active)).1;
        lemma_states(w1, paths, programs);
        if let Ok(states) = states_of(w1, paths) {
            lemma_lines(
                w1,
                status_lines(states[0].0, states[0].1) + status_lines(states[1].0, states[1].1),
                programs,
            );
        }
    }
}

proof fn lemma_offer(w: World, setting: Setting, channel: Channel, staging: Seq<u8>)
    ensures
        proper(offer_deeds(w, setting, channel, staging), true),
{
    reveal(offer_deeds);
    let response = within(staging, "release.json"@);
    channels_are_described_apart();
    lemma_description_request(setting, description_address(channel), response);
    helpers_are_asked(response, response);
    let request = channel_request(setting.version@, channel, response);
    assert(allowed(request));
    assert(allowed(selection_request(response)));
}

proof fn lemma_fetching(w: World, setting: Setting, offer: Offer, archive: Seq<u8>)
    requires
        fit(offer),
    ensures
        proper(fetching_deeds(w, setting, offer, archive), true),
{
    archive_is_asked_for(setting, offer, archive);
    helpers_are_asked(archive, archive);
    let request = offer_request(setting.version@, setting.terminal, offer, archive);
    assert(allowed(request));
    assert(allowed(digest_request(archive)));
}

proof fn lemma_extraction(w: World, archive: Seq<u8>, extraction: Seq<u8>)
    ensures
        proper(extraction_deeds(w, archive, extraction), true),
{
    helpers_are_asked(archive, extraction);
    assert(allowed(unpacking_request(archive, extraction)));
    let none: Seq<Seq<u8>> = seq![];
    assert(none.push(encode_utf8("--version"@)) =~= seq![encode_utf8("--version"@)]);
    assert forall|root: Seq<u8>| allowed(#[trigger] staged_check(root)) by {
        assert(staged_check(root) == own_version_request(root));
    }
}

proof fn lemma_publication(w: World, paths: Places, root: Seq<u8>, place: Seq<u8>, record: Record)
    ensures
        proper(publication_deeds(w, paths, root, place, record), true),
{
}

proof fn lemma_obtaining(
    w: World,
    paths: Places,
    setting: Setting,
    channel: Channel,
    offer: Offer,
    staging: Seq<u8>,
)
    requires
        fit(offer),
    ensures
        proper(obtaining_deeds(w, paths, setting, channel, offer, staging), true),
{
    reveal(obtaining_deeds);
    reveal(adding_deeds);
    let place = paths.install_of(channel, offer.id);
    let archive = within(staging, ASSET_NAME@ + ".part"@);
    let extraction = within(staging, "extracted"@);
    lemma_installation(w, paths, place, Some(channel), true);
    lemma_fetching(w, setting, offer, archive);
    let w1 = archive_fetched(w, setting, offer, archive).1;
    lemma_extraction(w1, archive, extraction);
    let (staged, w2) = release_staged(w1, archive, extraction);
    if let Ok((root, version)) = staged {
        lemma_publication(w2, paths, root, place, record_of(channel, offer, version));
    }
}

proof fn lemma_choosing(
    w: World,
    paths: Places,
    setting: Setting,
    channel: Channel,
    had: Option<Installed>,
    staging: Seq<u8>,
)
    ensures
        proper(choosing_deeds(w, paths, setting, channel, had, staging), true),
{
    reveal(choosing_deeds);
    reveal(taking_deeds);
    lemma_offer(w, setting, channel, staging);
    let (resolved, w1) = offer_resolved(w, setting, channel, staging);
    if let Ok(offer) = resolved {
        lemma_resolved_is_fit(w, setting, channel, staging, offer);
        lemma_obtaining(w1, paths, setting, channel, offer, staging);
        let (obtained, w2) = release_obtained(w1, paths, setting, channel, offer, staging);
        if let Ok(record) = obtained {
            lemma_committing(w2, paths, replacement(channel, had, record), true);
        }
    }
}

/// What a channel offers can be accepted.
proof fn lemma_resolved_is_fit(
    w: World,
    setting: Setting,
    channel: Channel,
    staging: Seq<u8>,
    offer: Offer,
)
    requires
        offer_resolved(w, setting, channel, staging).0 == Ok::<Offer, Seq<char>>(offer),
    ensures
        fit(offer),
{
    let response = within(staging, "release.json"@);
    offer_is_that_of_the_channel(w, setting, channel, staging, offer);
    let w1 = w.run(
        description_request(setting.version@, description_address(channel), response),
    ).1;
    let picked = w1.run(selection_request(response)).0;
    let text = choose|text: Seq<char>| #[trigger]
        wrote(picked, text) && offer_in(text, response) == Ok::<Offer, Seq<char>>(offer);
    offer_is_what_its_lines_say(text, response, offer);
}

proof fn lemma_install(w: World, paths: Places, setting: Setting, channel: Channel)
    ensures
        proper(install_deeds(w, paths, setting, channel), true),
{
    reveal(install_deeds);
    reveal(renewal_deeds);
    reveal(conclusion_deeds);
    lemma_state(w, paths, channel, true);
    if let Ok(selected) = state_of(w, paths, channel) {
        let had = selected.current;
        let (created, w1) = staging_created(w, paths, channel, setting.process);
        if let Ok(staging) = created {
            lemma_choosing(w1, paths, setting, channel, had, staging);
            let (chosen, w2) = release_selected(w1, paths, setting, channel, had, staging);
            lemma_cleanup(w2, paths, true);
        }
    }
}

proof fn lemma_missing(w: World, paths: Places, setting: Setting, channel: Channel)
    ensures
        proper(missing_deeds(w, paths, setting, channel), true),
{
    reveal(missing_deeds);
    lemma_state(w, paths, channel, true);
    lemma_install(w, paths, setting, channel);
}

proof fn lemma_installs(w: World, paths: Places, setting: Setting, states: Seq<(Channel, Selected)>)
    ensures
        proper(installs_deeds(w, paths, setting, states), true),
    decreases states.len(),
{
    if states.len() > 0 {
        lemma_install(w, paths, setting, states[0].0);
        lemma_installs(
            channel_installed(w, paths, setting, states[0].0).1,
            paths,
            setting,
            states.skip(1),
        );
    }
}

/// Whether an operation is one that installs.
pub open spec fn may_install(operation: Operation) -> bool {
    operation is Install || operation is Use || operation is Update
}

proof fn lemma_operation(w: World, paths: Places, setting: Setting, operation: Operation)
    ensures
        proper(operation_deeds(w, paths, setting, operation), may_install(operation)),
{
    reveal(operation_deeds);
    let programs = may_install(operation);
    lemma_directories(w, layout(paths), programs);
    let w1 = layout_ensured(w, paths).1;
    match operation {
        Operation::Install(channel) => {
            reveal(layout_deeds);
            lemma_missing(w1, paths, setting, channel);
        },
        Operation::Use(channel) => {
            reveal(layout_deeds);
            reveal(use_deeds);
            lemma_exposing(w1, paths, programs);
            lemma_missing(w1, paths, setting, channel);
            lemma_activation(
                missing_installed(w1, paths, setting, channel).1,
                paths,
                channel,
                programs,
            );
        },
        Operation::Update(selection) => {
            lemma_update(w, paths, setting, selection);
        },
        Operation::Remove(selection) => {
            lemma_removal(w, paths, selection, programs);
        },
        Operation::Rollback(channel) => {
            lemma_rollback(w, paths, channel, programs);
        },
        Operation::Status => {
            lemma_status(w, paths, programs);
        },
    }
}

proof fn lemma_update(w: World, paths: Places, setting: Setting, selection: ChannelSelection)
    ensures
        proper(update_deeds(w, paths, setting, selection), true),
{
    reveal(update_deeds);
    lemma_states(w, paths, true);
    match selection {
        ChannelSelection::Channel(channel) => {
            lemma_state(w, paths, channel, true);
            lemma_install(w, paths, setting, channel);
        },
        ChannelSelection::All => {
            if let Ok(states) = states_of(w, paths) {
                lemma_installs(w, paths, setting, installed_states(states));
            }
        },
    }
}

proof fn lemma_locked_runs(w: World, paths: Places, setting: Setting, operation: Operation)
    ensures
        proper(locked_deeds(w, paths, setting, operation), may_install(operation)),
{
    reveal(locked_deeds);
    reveal(recovered_deeds);
    let programs = may_install(operation);
    let w1 = lock_taken(w, paths, setting.process).1;
    lemma_recovery(w1, paths, programs);
    lemma_operation(change_recovered(w1, paths).1, paths, setting, operation);
}

proof fn lemma_presence(w: World, programs: Seq<Seq<char>>)
    requires
        forall|k: int|
            0 <= k < programs.len() ==> #[trigger] programs[k] == "curl"@ || programs[k] == "jq"@
                || programs[k] == "sha256sum"@ || programs[k] == "tar"@,
    ensures
        proper(presence_deeds(w, programs), true),
    decreases programs.len(),
{
    if programs.len() > 0 {
        let rest = programs.skip(1);
        assert forall|k: int| 0 <= k < rest.len() implies #[trigger] rest[k] == "curl"@ || rest[k]
            == "jq"@ || rest[k] == "sha256sum"@ || rest[k] == "tar"@ by {
            assert(rest[k] == programs[k + 1]);
        }
        let none: Seq<Seq<u8>> = seq![];
        assert(none.push(encode_utf8("--version"@)) =~= seq![encode_utf8("--version"@)]);
        assert(programs[0] == "curl"@ || programs[0] == "jq"@ || programs[0] == "sha256sum"@
            || programs[0] == "tar"@);
        assert(version_check(programs[0]) == presence_request(programs[0]));
        assert(allowed(presence_request(programs[0])));
        lemma_presence(program_present(w, programs[0]).1, rest);
    }
}

/// Whether a command is one that may install a release.
pub open spec fn installs_anything(cli: Cli) -> bool {
    cli is Install || cli is Use || cli is Update
}

proof fn lemma_command(w: World, paths: Places, setting: Setting, cli: Cli)
    ensures
        proper(command_deeds(w, paths, setting, cli), installs_anything(cli)),
{
    reveal(command_deeds);
    reveal(beginning_deeds);
    reveal(continuing_deeds);
    reveal(showing_deeds);
    let (present, w1) = programs_present(w, required_programs());
    lemma_presence(w, required_programs());
    let w2 = state_root_prepared(w1, paths).1;
    match cli {
        Cli::Install(channel) => {
            lemma_locked_runs(w2, paths, setting, Operation::Install(channel));
        },
        Cli::Use(channel) => {
            lemma_locked_runs(w2, paths, setting, Operation::Use(channel));
        },
        Cli::Update(selection) => {
            lemma_locked_runs(w1, paths, setting, Operation::Update(selection));
        },
        Cli::Remove(selection) => {
            lemma_locked_runs(w, paths, setting, Operation::Remove(selection));
        },
        Cli::Rollback(channel) => {
            lemma_locked_runs(w, paths, setting, Operation::Rollback(channel));
        },
        Cli::Status => {
            lemma_locked_runs(w, paths, setting, Operation::Status);
            lemma_lines(w, empty_status(), false);
        },
        Cli::Help => {},
    }
}

/// No program is run but those that nv may run: whatever is downloaded is the description of a
/// channel or one of Neovim's archives. Commands that install nothing run no program at all.
pub proof fn only_allowed_programs_are_run(
    w: World,
    host: Host,
    arguments: Seq<Seq<u8>>,
    k: int,
    invocation: Invocation,
)
    requires
        0 <= k < program_deeds(w, host, arguments).len(),
        program_deeds(w, host, arguments)[k] == Deed::Run(invocation),
    ensures
        allowed(invocation),
        exists|cli: Cli| #[trigger] spells(arguments, cli) && installs_anything(cli),
{
    let cli = command_line(arguments)->Ok_0;
    let deeds = program_deeds(w, host, arguments);
    command_is_its_spelling(arguments, cli);
    if let Ok(paths) = places_of(host.home.deep_view()) {
        lemma_command(w, paths, host.setting, cli);
    }
    assert(proper(deeds, installs_anything(cli)));
    reveal(proper);
    assert(in_order(deeds[k], installs_anything(cli)));
}

} // verus!
