//! What an installation promises on a calm machine whose programs do their work.

use vstd::prelude::*;
use vstd::utf8::*;

use crate::calm::{
    calm, committable, committable_change_is_made, lemma_calm_attempt, lemma_calm_installation,
    lemma_calm_sight, links, release_kept, tidy,
};
use crate::changes::concerns;
use crate::channel::{Channel, ChannelSelection};
use crate::cleanup::installs_cleaned;
use crate::commands::channels_updated;
use crate::disk::{at, kept, lemma_pointer_selects, lemma_stored, no_slash, orderly};
use crate::frames::{
    lemma_decimal, lemma_inside, lemma_reaches_on, lemma_staging, printed_keeps, warned_keeps,
};
use crate::host::{reaches, Deed, Names, World};
use crate::install::{
    archive_fetched, channel_installed, install_concluded, missing_installed, record_of,
    release_added, release_line, release_obtained, release_selected, release_staged, release_taken,
};
use crate::install_frames::{
    archive_fetched_keeps, install_concluded_keeps, installs_cleaned_keeps, lemma_outside,
    offer_resolved_keeps, release_staged_keeps, staging_created_keeps, staging_removed_keeps,
};
use crate::installation::{installation_at, pointer_of, state_of, Installed, Selected};
use crate::laws::lemma_state_selects;
use crate::laws_cleanup::{cleanup_spares_selected, lemma_selected_path};
use crate::laws_success::{published_release_is_read_back, unpacked, vacant};
use crate::layout::{printed, warned};
use crate::locate::{
    ascii, below, draft_name, is_name, is_place, lemma_apart, lemma_ascii, lemma_below,
    lemma_distinct_trees, lemma_draft, lemma_names, lemma_places, lemma_release_name,
};
use crate::metadata::{install_name_read_back, install_named, install_named_only, Record};
use crate::path::{absolute, has_parent, parent_name, pieces, SLASH};
use crate::paths::{install_name, places_below, within, Places};
use crate::pointers::{change_committed, replacement, transaction_draft};
use crate::programs::{offer_resolved, Offer, Setting};
use crate::recovery::lemma_state_same;
use crate::release::{is_release_id, is_sha256, is_version, ASSET_NAME};
use crate::separation::{
    lemma_active_spared, lemma_in_state, lemma_install_place, lemma_link_place, lemma_release_parts,
    lemma_state_bytes, unstaged,
};
use crate::staging::{staging_created, staging_finished, staging_name};
use crate::text::decimal;
use crate::transaction::names_release_of;

verus! {

/// What is in the directory of releases is not in the directory for staging.
proof fn lemma_installs_unstaged(home: Seq<u8>, path: Seq<u8>)
    requires
        absolute(home),
        reaches(places_below(home).installs, path),
    ensures
        unstaged(places_below(home), path),
{
    let paths = places_below(home);
    let n = paths.state.len() as int + 1;
    lemma_in_state(home, Channel::Stable);
    lemma_state_bytes(home, Channel::Stable);
    lemma_reaches_on(paths.state, paths.installs, path);
    assert(path.take(paths.installs.len() as int)[n] == paths.installs[n]);
    lemma_apart(paths.staging, path, n);
}

/// The places that a change is about are neither in the directory of releases nor in that for
/// staging.
proof fn lemma_concerned_unstaged(home: Seq<u8>, channel: Channel, path: Seq<u8>)
    requires
        absolute(home),
        concerns(places_below(home), channel, path),
    ensures
        unstaged(places_below(home), path),
        !reaches(places_below(home).installs, path),
{
    let paths = places_below(home);
    let directory = paths.directory_of(channel);
    let n = paths.state.len() as int + 1;
    lemma_in_state(home, channel);
    lemma_state_bytes(home, channel);
    let place = if reaches(paths.transaction, path) {
        paths.transaction
    } else if reaches(transaction_draft(paths), path) {
        transaction_draft(paths)
    } else if reaches(below(directory, "current"@), path) {
        below(directory, "current"@)
    } else if reaches(below(directory, "previous"@), path) {
        below(directory, "previous"@)
    } else if reaches(below(directory, draft_name("current"@)), path) {
        below(directory, draft_name("current"@))
    } else {
        below(directory, draft_name("previous"@))
    };
    assert(reaches(place, path) && reaches(paths.state, place));
    lemma_reaches_on(paths.state, place, path);
    assert(path.take(place.len() as int)[n] == place[n]);
    lemma_apart(paths.staging, path, n);
    lemma_apart(paths.installs, path, n);
}

/// Whether the programs provide the offered release: it is downloaded and checked, and unpacked in
/// the staging directory.
pub open spec fn provided(
    w: World,
    setting: Setting,
    offer: Offer,
    staging: Seq<u8>,
    root: Seq<u8>,
    version: Seq<char>,
) -> bool {
    let archive = within(staging, ASSET_NAME@ + ".part"@);
    let (fetched, w1) = archive_fetched(w, setting, offer, archive);
    let (staged, w2) = release_staged(w1, archive, within(staging, "extracted"@));
    &&& fetched is Ok
    &&& staged == Ok::<(Seq<u8>, Seq<char>), Seq<char>>((root, version))
    &&& unpacked(w2.nodes, root)
}

/// The version that an unpacked release reports is one.
proof fn lemma_staged_version(w: World, archive: Seq<u8>, extraction: Seq<u8>)
    ensures
        release_staged(w, archive, extraction).0 matches Ok((_, version)) ==> is_version(version),
{
    reveal(release_staged);
}

/// A release that the programs provide is put in its place, and read back from there.
#[verifier::rlimit(40)]
#[verifier::spinoff_prover]
proof fn lemma_obtained_calmly(
    w: World,
    home: Seq<u8>,
    setting: Setting,
    channel: Channel,
    offer: Offer,
    staging: Seq<u8>,
    root: Seq<u8>,
    version: Seq<char>,
)
    requires
        absolute(home),
        calm(w.outside),
        orderly(w.outside, places_below(home)),
        reaches(places_below(home).staging, staging),
        is_place(staging),
        is_release_id(offer.id),
        is_sha256(offer.sha256),
        provided(w, setting, offer, staging, root, version),
        vacant(w.nodes, places_below(home).install_of(channel, offer.id)),
    ensures
        ({
            let paths = places_below(home);
            let place = paths.install_of(channel, offer.id);
            let record = record_of(channel, offer, version);
            let (obtained, after) = release_obtained(w, paths, setting, channel, offer, staging);
            &&& obtained == Ok::<Record, Seq<char>>(record)
            &&& after.outside == w.outside
            &&& installation_at(after, paths, place, Some(channel)) == Ok::<Record, Seq<char>>(
                record,
            )
            &&& forall|path: Seq<u8>|
                unstaged(paths, path) && !reaches(place, path) ==> #[trigger] at(after.nodes, path)
                    == at(w.nodes, path)
        }),
{
    reveal(release_obtained);
    reveal(release_added);
    let paths = places_below(home);
    let place = paths.install_of(channel, offer.id);
    let record = record_of(channel, offer, version);
    let archive = within(staging, ASSET_NAME@ + ".part"@);
    let extraction = within(staging, "extracted"@);
    let after = release_obtained(w, paths, setting, channel, offer, staging).1;
    reveal_strlit("extracted");
    lemma_inside(paths.staging, staging, "extracted"@);
    lemma_install_place(home, channel, offer.id);
    assert(reaches(place, place));
    lemma_calm_sight(w, place);
    let w1 = archive_fetched(w, setting, offer, archive).1;
    let w2 = release_staged(w1, archive, extraction).1;
    lemma_staged_version(w1, archive, extraction);
    lemma_installs_unstaged(home, place);
    archive_fetched_keeps(w, paths, setting, offer, archive, place);
    release_staged_keeps(w1, paths, archive, extraction, place);
    assert forall|path: Seq<u8>| unstaged(paths, path) implies #[trigger] at(w2.nodes, path) == at(
        w.nodes,
        path,
    ) by {
        archive_fetched_keeps(w, paths, setting, offer, archive, path);
        release_staged_keeps(w1, paths, archive, extraction, path);
    }
    assert forall|inner: Seq<u8>| #[trigger] w2.nodes.contains_key(inner) implies !reaches(
        place,
        inner,
    ) by {
        if reaches(place, inner) {
            lemma_reaches_on(paths.installs, place, inner);
            lemma_installs_unstaged(home, inner);
            assert(at(w2.nodes, inner) == at(w.nodes, inner));
            assert(w.nodes.contains_key(inner));
        }
    }
    published_release_is_read_back(w2, home, root, record);
    assert forall|path: Seq<u8>| unstaged(paths, path) && !reaches(place, path) implies #[trigger] at(
        after.nodes,
        path,
    ) == at(w.nodes, path) by {
        lemma_outside(paths.staging, root, path);
        assert(at(w2.nodes, path) == at(w.nodes, path));
    }
}

/// Nothing prevents that a channel selects a release that has been put in its place.
#[verifier::rlimit(60)]
#[verifier::spinoff_prover]
proof fn lemma_replacement_committable(
    w: World,
    after: World,
    home: Seq<u8>,
    channel: Channel,
    selected: Selected,
    record: Record,
)
    requires
        absolute(home),
        calm(w.outside),
        after.outside == w.outside,
        record.channel == channel,
        is_release_id(record.release),
        tidy(w.nodes, places_below(home), channel),
        state_of(w, places_below(home), channel) == Ok::<Selected, Seq<char>>(selected),
        selected.current matches Some(current) ==> current.name != install_name(
            channel,
            record.release,
        ),
        installation_at(
            after,
            places_below(home),
            places_below(home).install_of(channel, record.release),
            Some(channel),
        ) is Ok,
        forall|path: Seq<u8>|
            unstaged(places_below(home), path) && !reaches(
                places_below(home).install_of(channel, record.release),
                path,
            ) ==> #[trigger] at(after.nodes, path) == at(w.nodes, path),
    ensures
        committable(after, places_below(home), replacement(channel, selected.current, record)),
{
    let paths = places_below(home);
    let place = paths.install_of(channel, record.release);
    let current = paths.link_of(channel, "current"@);
    let previous = paths.link_of(channel, "previous"@);
    lemma_names();
    lemma_install_place(home, channel, record.release);
    install_name_read_back(channel, record.release);
    lemma_state_selects(w, paths, channel);
    lemma_link_place(home, channel, "current"@);
    lemma_link_place(home, channel, "previous"@);
    lemma_outside(paths.installs, place, current);
    lemma_outside(paths.installs, place, previous);
    assert(at(after.nodes, current) == at(w.nodes, current));
    assert(at(after.nodes, previous) == at(w.nodes, previous));
    assert forall|path: Seq<u8>| #[trigger]
        after.nodes.contains_key(path) && concerns(paths, channel, path) implies links(
        paths,
        channel,
    ).contains(path) by {
        lemma_concerned_unstaged(home, channel, path);
        lemma_outside(paths.installs, place, path);
        assert(at(after.nodes, path) == at(w.nodes, path));
        assert(w.nodes.contains_key(path));
    }
    if let Some(had) = selected.current {
        reveal(state_of);
        lemma_pointer_selects(w, paths, channel, "current"@);
        lemma_release_apart(home, channel, had.name, record.release, had.path);
        lemma_release_parts(home, channel, had.name);
        let binary = within(had.path, "bin/nvim"@);
        let metadata = within(had.path, ".nv-metadata"@);
        lemma_installs_unstaged(home, had.path);
        lemma_installs_unstaged(home, binary);
        lemma_installs_unstaged(home, metadata);
        lemma_in_release(home, channel, had.name, record.release);
        assert(at(after.nodes, had.path) == at(w.nodes, had.path));
        assert(at(after.nodes, binary) == at(w.nodes, binary));
        assert(at(after.nodes, metadata) == at(w.nodes, metadata));
        lemma_calm_installation(w, after, paths, had.path, Some(channel));
    }
}

/// The directories of different releases are apart.
proof fn lemma_release_apart(
    home: Seq<u8>,
    channel: Channel,
    name: Seq<char>,
    release: Seq<char>,
    path: Seq<u8>,
)
    requires
        absolute(home),
        names_release_of(name, channel),
        is_release_id(release),
        name != install_name(channel, release),
        reaches(within(places_below(home).installs, name), path),
    ensures
        !reaches(places_below(home).install_of(channel, release), path),
{
    let paths = places_below(home);
    let other = install_name(channel, release);
    lemma_places(home);
    lemma_release_name(name, channel);
    lemma_install_place(home, channel, release);
    lemma_draft(paths.installs, name);
    lemma_ascii_of(name);
    lemma_ascii_of(other);
    if ascii(name) == ascii(other) {
        assert forall|k: int| 0 <= k < name.len() implies name[k] == other[k] by {
            assert(ascii(name)[k] == ascii(other)[k]);
        }
        assert(name =~= other);
    }
    lemma_distinct_trees(paths.installs, ascii(name), ascii(other), path);
}

proof fn lemma_ascii_of(name: Seq<char>)
    requires
        is_name(name),
    ensures
        no_slash(ascii(name)),
        ascii(name).len() == name.len(),
        forall|k: int| 0 <= k < name.len() ==> #[trigger] ascii(name)[k] == name[k] as u8,
{
    let bytes = ascii(name);
    assert forall|k: int| 0 <= k < bytes.len() implies #[trigger] bytes[k] != SLASH by {
        assert(bytes[k] == name[k] as u8);
        assert(name[k] != '/');
    }
}

/// What nv reads of a release is not in the directory of another one.
proof fn lemma_in_release(home: Seq<u8>, channel: Channel, name: Seq<char>, release: Seq<char>)
    requires
        absolute(home),
        names_release_of(name, channel),
        is_release_id(release),
        name != install_name(channel, release),
    ensures
        ({
            let paths = places_below(home);
            let path = within(paths.installs, name);
            let place = paths.install_of(channel, release);
            &&& !reaches(place, within(path, "bin/nvim"@))
            &&& !reaches(place, within(path, ".nv-metadata"@))
        }),
{
    let paths = places_below(home);
    let path = within(paths.installs, name);
    lemma_places(home);
    lemma_release_name(name, channel);
    lemma_draft(paths.installs, name);
    reveal_strlit("bin/nvim");
    reveal_strlit(".nv-metadata");
    lemma_inside(path, path, "bin/nvim"@);
    lemma_inside(path, path, ".nv-metadata"@);
    lemma_release_apart(home, channel, name, release, within(path, "bin/nvim"@));
    lemma_release_apart(home, channel, name, release, within(path, ".nv-metadata"@));
}

/// The end of an installation leaves alone what its cleanup leaves alone.
proof fn lemma_conclusion_keeps(
    w: World,
    home: Seq<u8>,
    channel: Channel,
    record: Record,
    staging: Seq<u8>,
    path: Seq<u8>,
)
    requires
        absolute(home),
        orderly(w.outside, places_below(home)),
        reaches(places_below(home).staging, staging),
        unstaged(places_below(home), path),
        kept(w, installs_cleaned(w, places_below(home)).1, path),
    ensures
        kept(w, install_concluded(w, places_below(home), channel, record, staging).1, path),
{
    reveal(install_concluded);
    let paths = places_below(home);
    let (cleaned, w1) = installs_cleaned(w, paths);
    let unclean = "nv: warning: installation committed, but cleanup failed: "@ + cleaned->Err_0;
    warned_keeps(w1, paths, unclean, path);
    let w2 = match cleaned {
        Ok(()) => w1,
        Err(_) => warned(w1, unclean).1,
    };
    staging_removed_keeps(w2, paths, staging, path);
    let (finished, w3) = staging_finished(w2, staging);
    let unfinished = "nv: warning: installation committed, but staging cleanup failed: "@
        + finished->Err_0;
    warned_keeps(w3, paths, unfinished, path);
    let w4 = match finished {
        Ok(()) => w3,
        Err(_) => warned(w3, unfinished).1,
    };
    let line = "installed "@ + channel.name() + " "@ + record.version + " (release "@
        + record.release + ")"@;
    printed_keeps(w4, paths, line, path);
}

/// On a calm machine an installation that has taken effect ends well.
proof fn lemma_conclusion_succeeds(
    w: World,
    home: Seq<u8>,
    channel: Channel,
    record: Record,
    staging: Seq<u8>,
)
    requires
        absolute(home),
        calm(w.outside),
        orderly(w.outside, places_below(home)),
        reaches(places_below(home).staging, staging),
    ensures
        install_concluded(w, places_below(home), channel, record, staging).0 is Ok,
        install_concluded(w, places_below(home), channel, record, staging).1.outside == w.outside,
{
    reveal(install_concluded);
    let paths = places_below(home);
    let path = paths.active;
    lemma_active_spared(home, channel);
    installs_cleaned_keeps(w, home, path);
    lemma_conclusion_keeps(w, home, channel, record, staging, path);
    let (cleaned, w1) = installs_cleaned(w, paths);
    let unclean = "nv: warning: installation committed, but cleanup failed: "@ + cleaned->Err_0;
    warned_keeps(w1, paths, unclean, path);
    let w2 = match cleaned {
        Ok(()) => w1,
        Err(_) => warned(w1, unclean).1,
    };
    staging_removed_keeps(w2, paths, staging, path);
    let (finished, w3) = staging_finished(w2, staging);
    let unfinished = "nv: warning: installation committed, but staging cleanup failed: "@
        + finished->Err_0;
    warned_keeps(w3, paths, unfinished, path);
    let w4 = match finished {
        Ok(()) => w3,
        Err(_) => warned(w3, unfinished).1,
    };
    let line = "installed "@ + channel.name() + " "@ + record.version + " (release "@
        + record.release + ")"@;
    lemma_calm_attempt(w4, Deed::Print(line));
}

/// What a channel selects at the end of an installation is what it selected when the installation
/// had taken effect.
proof fn lemma_conclusion_keeps_state(
    w: World,
    home: Seq<u8>,
    channel: Channel,
    record: Record,
    staging: Seq<u8>,
)
    requires
        absolute(home),
        calm(w.outside),
        orderly(w.outside, places_below(home)),
        reaches(places_below(home).staging, staging),
        state_of(w, places_below(home), channel) is Ok,
    ensures
        state_of(
            install_concluded(w, places_below(home), channel, record, staging).1,
            places_below(home),
            channel,
        ) == state_of(w, places_below(home), channel),
{
    let paths = places_below(home);
    let after = install_concluded(w, paths, channel, record, staging).1;
    let selected = state_of(w, paths, channel)->Ok_0;
    lemma_names();
    lemma_state_selects(w, paths, channel);
    lemma_link_place(home, channel, "current"@);
    lemma_link_place(home, channel, "previous"@);
    install_concluded_keeps(w, home, channel, record, staging, paths.link_of(channel, "current"@));
    install_concluded_keeps(w, home, channel, record, staging, paths.link_of(channel, "previous"@));
    if let Some(installed) = selected.current {
        lemma_selected_release_kept(w, home, channel, record, staging, installed);
    }
    if let Some(installed) = selected.previous {
        lemma_selected_release_kept(w, home, channel, record, staging, installed);
    }
    lemma_state_same(w, after, paths, channel);
}

proof fn lemma_selected_release_kept(
    w: World,
    home: Seq<u8>,
    channel: Channel,
    record: Record,
    staging: Seq<u8>,
    installed: Installed,
)
    requires
        absolute(home),
        orderly(w.outside, places_below(home)),
        reaches(places_below(home).staging, staging),
        state_of(w, places_below(home), channel) matches Ok(selected) && (selected.current == Some(
            installed,
        ) || selected.previous == Some(installed)),
    ensures
        release_kept(
            w,
            install_concluded(w, places_below(home), channel, record, staging).1,
            places_below(home),
            installed.name,
        ),
{
    let paths = places_below(home);
    lemma_selected_path(w, paths, channel, installed);
    let path = installed.path;
    lemma_places(home);
    lemma_release_name(installed.name, channel);
    lemma_release_parts(home, channel, installed.name);
    lemma_draft(paths.installs, installed.name);
    reveal_strlit("bin/nvim");
    reveal_strlit(".nv-metadata");
    lemma_inside(path, path, "bin/nvim"@);
    lemma_inside(path, path, ".nv-metadata"@);
    lemma_kept_in_release(w, home, channel, record, staging, installed, path);
    lemma_kept_in_release(w, home, channel, record, staging, installed, within(path, "bin/nvim"@));
    lemma_kept_in_release(
        w,
        home,
        channel,
        record,
        staging,
        installed,
        within(path, ".nv-metadata"@),
    );
}

proof fn lemma_kept_in_release(
    w: World,
    home: Seq<u8>,
    channel: Channel,
    record: Record,
    staging: Seq<u8>,
    installed: Installed,
    path: Seq<u8>,
)
    requires
        absolute(home),
        orderly(w.outside, places_below(home)),
        reaches(places_below(home).staging, staging),
        state_of(w, places_below(home), channel) matches Ok(selected) && (selected.current == Some(
            installed,
        ) || selected.previous == Some(installed)),
        reaches(installed.path, path),
        reaches(places_below(home).installs, path),
    ensures
        kept(w, install_concluded(w, places_below(home), channel, record, staging).1, path),
{
    cleanup_spares_selected(w, home, channel, installed, path);
    lemma_installs_unstaged(home, path);
    lemma_conclusion_keeps(w, home, channel, record, staging, path);
}

/// Whether nothing on disk prevents the installation of a release that a channel offers: the
/// directory for staging is empty, nothing is at the place of the release, and no change is
/// unfinished.
pub open spec fn installable(
    w: World,
    paths: Places,
    channel: Channel,
    release: Seq<char>,
    staging: Seq<u8>,
) -> bool {
    &&& tidy(w.nodes, paths, channel)
    &&& w.listing(paths.staging) == Names::Names(seq![])
    &&& at(w.nodes, staging) is None
    &&& vacant(w.nodes, paths.install_of(channel, release))
}

/// The current release of a channel is in a directory with the name of that release.
proof fn lemma_selected_release(w: World, home: Seq<u8>, channel: Channel, installed: Installed)
    requires
        absolute(home),
        state_of(w, places_below(home), channel) matches Ok(selected) && selected.current == Some(
            installed,
        ),
    ensures
        installed.name == install_name(channel, installed.record.release),
        installed.path == places_below(home).install_of(channel, installed.record.release),
        at(w.nodes, installed.path) is Some,
{
    let paths = places_below(home);
    let name = installed.name;
    lemma_places(home);
    assert(pointer_of(w, paths, channel, "current"@) == Ok::<Option<Installed>, Seq<char>>(
        Some(installed),
    )) by {
        reveal(state_of);
    }
    lemma_pointer_selects(w, paths, channel, "current"@);
    lemma_release_name(name, channel);
    lemma_ascii_of(name);
    lemma_draft(paths.installs, name);
    install_named_only(name);
    reveal(installation_at);
    assert(w.sight(installed.path) is Present ==> w.nodes.contains_key(installed.path)) by {
        reveal(World::sight);
    }
    assert(installed.record.release == install_named(name)->Ok_0.1);
    lemma_install_place(home, channel, installed.record.release);
}

/// A release that a channel offers, other than its current one, is installed.
#[verifier::rlimit(60)]
#[verifier::spinoff_prover]
proof fn lemma_offered_installed(
    w: World,
    home: Seq<u8>,
    setting: Setting,
    channel: Channel,
    selected: Selected,
    time: u128,
    offer: Offer,
    root: Seq<u8>,
    version: Seq<char>,
)
    requires
        absolute(home),
        calm(w.outside),
        orderly(w.outside, places_below(home)),
        state_of(w, places_below(home), channel) == Ok::<Selected, Seq<char>>(selected),
        selected.current matches Some(current) ==> current.name != install_name(channel, offer.id)
            && current.record.release != offer.id,
        w.time().0 == Ok::<u128, Seq<char>>(time),
        ({
            let paths = places_below(home);
            let staging = within(paths.staging, staging_name(channel, setting.process, time));
            let w1 = staging_created(w, paths, channel, setting.process).1;
            let (resolved, w2) = offer_resolved(w1, setting, channel, staging);
            &&& installable(w, paths, channel, offer.id, staging)
            &&& resolved == Ok::<Offer, Seq<char>>(offer)
            &&& provided(w2, setting, offer, staging, root, version)
        }),
    ensures
        ({
            let paths = places_below(home);
            let (done, after) = channel_installed(w, paths, setting, channel);
            let new = Installed {
                name: install_name(channel, offer.id),
                path: paths.install_of(channel, offer.id),
                record: record_of(channel, offer, version),
            };
            &&& done is Ok
            &&& after.outside == w.outside
            &&& state_of(after, paths, channel) matches Ok(now) && now.current == Some(new)
                && match selected.current {
                Some(had) => now.previous matches Some(previous) && previous.name == had.name,
                None => now.previous is None,
            }
        }),
{
    let paths = places_below(home);
    let place = paths.install_of(channel, offer.id);
    let staging = within(paths.staging, staging_name(channel, setting.process, time));
    let record = record_of(channel, offer, version);
    let change = replacement(channel, selected.current, record);
    let w0 = w.time().1;
    assert(w0.outside == w.outside && w0.nodes == w.nodes) by {
        reveal(World::time);
    }
    lemma_staging(home, channel, setting.process, time);
    lemma_calm_attempt(w0, Deed::MakeDirectory(staging));
    let (created, w1) = staging_created(w, paths, channel, setting.process);
    assert(created == Ok::<Seq<u8>, Seq<char>>(staging));
    let w2 = offer_resolved(w1, setting, channel, staging).1;
    lemma_active_spared(home, channel);
    lemma_offered(w1, setting, channel, staging);
    lemma_install_place(home, channel, offer.id);
    staging_created_keeps(w, home, channel, setting.process, paths.active);
    offer_resolved_keeps(w1, paths, setting, channel, staging, paths.active);
    assert forall|path: Seq<u8>| unstaged(paths, path) implies #[trigger] at(w2.nodes, path) == at(
        w.nodes,
        path,
    ) by {
        staging_created_keeps(w, home, channel, setting.process, path);
        offer_resolved_keeps(w1, paths, setting, channel, staging, path);
    }
    assert forall|inner: Seq<u8>| #[trigger] w2.nodes.contains_key(inner) implies !reaches(
        place,
        inner,
    ) by {
        if reaches(place, inner) {
            lemma_reaches_on(paths.installs, place, inner);
            lemma_installs_unstaged(home, inner);
            assert(at(w2.nodes, inner) == at(w.nodes, inner));
            assert(w.nodes.contains_key(inner));
        }
    }
    lemma_obtained_calmly(w2, home, setting, channel, offer, staging, root, version);
    let w3 = release_obtained(w2, paths, setting, channel, offer, staging).1;
    assert forall|path: Seq<u8>| unstaged(paths, path) && !reaches(place, path) implies #[trigger] at(
        w3.nodes,
        path,
    ) == at(w.nodes, path) by {
        assert(at(w2.nodes, path) == at(w.nodes, path));
    }
    lemma_replacement_committable(w, w3, home, channel, selected, record);
    committable_change_is_made(w3, home, change);
    let w4 = change_committed(w3, paths, change).1;
    assert(release_selected(w1, paths, setting, channel, selected.current, staging) == (
        Ok::<Option<Record>, Seq<char>>(Some(record)),
        w4,
    )) by {
        reveal(release_selected);
        reveal(release_taken);
    }
    lemma_conclusion_succeeds(w4, home, channel, record, staging);
    lemma_conclusion_keeps_state(w4, home, channel, record, staging);
}

/// On a calm machine the release that a channel offers is installed if the programs provide it and
/// nothing on disk prevents it. The channel then selects that release, and before it the one that
/// it had. That is what an update of an installed channel and what the installation of a missing one
/// come to.
pub proof fn offered_release_is_installed(
    w: World,
    home: Seq<u8>,
    setting: Setting,
    channel: Channel,
    selected: Selected,
    time: u128,
    offer: Offer,
    root: Seq<u8>,
    version: Seq<char>,
)
    requires
        absolute(home),
        calm(w.outside),
        orderly(w.outside, places_below(home)),
        state_of(w, places_below(home), channel) == Ok::<Selected, Seq<char>>(selected),
        w.time().0 == Ok::<u128, Seq<char>>(time),
        ({
            let paths = places_below(home);
            let staging = within(paths.staging, staging_name(channel, setting.process, time));
            let w1 = staging_created(w, paths, channel, setting.process).1;
            let (resolved, w2) = offer_resolved(w1, setting, channel, staging);
            &&& installable(w, paths, channel, offer.id, staging)
            &&& resolved == Ok::<Offer, Seq<char>>(offer)
            &&& provided(w2, setting, offer, staging, root, version)
        }),
    ensures
        ({
            let paths = places_below(home);
            let (done, after) = channel_installed(w, paths, setting, channel);
            let new = Installed {
                name: install_name(channel, offer.id),
                path: paths.install_of(channel, offer.id),
                record: record_of(channel, offer, version),
            };
            &&& done is Ok
            &&& after.outside == w.outside
            &&& state_of(after, paths, channel) matches Ok(now) && now.current == Some(new)
                && match selected.current {
                Some(had) => now.previous matches Some(previous) && previous.name == had.name,
                None => now.previous is None,
            }
            &&& match selected.current {
                Some(_) => channels_updated(
                    w,
                    paths,
                    setting,
                    ChannelSelection::Channel(channel),
                ) == (done, after),
                None => missing_installed(w, paths, setting, channel) == (done, after),
            }
        }),
{
    let paths = places_below(home);
    let place = paths.install_of(channel, offer.id);
    let staging = within(paths.staging, staging_name(channel, setting.process, time));
    if let Some(current) = selected.current {
        lemma_selected_release(w, home, channel, current);
        lemma_offered(
            staging_created(w, paths, channel, setting.process).1,
            setting,
            channel,
            staging,
        );
        lemma_install_place(home, channel, offer.id);
        assert(reaches(place, place));
    }
    lemma_offered_installed(w, home, setting, channel, selected, time, offer, root, version);
}

/// What a channel offers is named and digested as it must be.
pub proof fn lemma_offered(w: World, setting: Setting, channel: Channel, staging: Seq<u8>)
    ensures
        offer_resolved(w, setting, channel, staging).0 matches Ok(offer) ==> is_release_id(offer.id)
            && is_sha256(offer.sha256),
{
}

/// The name of a staging directory is a name.
pub proof fn lemma_staging_name(channel: Channel, process: u32, time: u128)
    ensures
        is_name(staging_name(channel, process, time)),
{
    let name = staging_name(channel, process, time);
    lemma_names();
    lemma_decimal(process as nat);
    lemma_decimal(time as nat);
    reveal_strlit("-");
    reveal_strlit("stable");
    reveal_strlit("nightly");
    assert(name.len() > 2);
    assert forall|k: int| 0 <= k < name.len() implies #[trigger] name[k] != '/' by {
        let head = channel.name() + "-"@;
        let middle = head + decimal(process as nat);
        let front = middle + "-"@;
        if k < head.len() {
            assert(name[k] == head[k]);
        } else if k < middle.len() {
            assert(name[k] == decimal(process as nat)[k - head.len()]);
        } else if k >= front.len() {
            assert(name[k] == decimal(time as nat)[k - front.len()]);
        }
    }
}

/// A staging directory is in the directory for staging.
pub proof fn lemma_staging_parent(home: Seq<u8>, channel: Channel, process: u32, time: u128)
    requires
        absolute(home),
    ensures
        ({
            let staging = within(
                places_below(home).staging,
                staging_name(channel, process, time),
            );
            has_parent(staging) && parent_name(staging) == Some(encode_utf8("staging"@))
        }),
{
    let paths = places_below(home);
    let name = staging_name(channel, process, time);
    let staging = within(paths.staging, name);
    lemma_places(home);
    lemma_names();
    lemma_staging_name(channel, process, time);
    lemma_draft(paths.staging, name);
    lemma_below(paths.state, "staging"@);
    lemma_below(paths.staging, name);
    lemma_ascii("staging"@);
    assert(pieces(staging).drop_last() =~= pieces(paths.staging));
}

/// A staging directory that is there is removed on a calm machine.
proof fn lemma_staging_finished(w: World, home: Seq<u8>, channel: Channel, process: u32, time: u128)
    requires
        absolute(home),
        calm(w.outside),
        at(
            w.nodes,
            within(places_below(home).staging, staging_name(channel, process, time)),
        ) matches Some(node) && node is Directory,
    ensures
        staging_finished(
            w,
            within(places_below(home).staging, staging_name(channel, process, time)),
        ).0 is Ok,
{
    let staging = within(places_below(home).staging, staging_name(channel, process, time));
    lemma_staging_parent(home, channel, process, time);
    lemma_calm_attempt(w, Deed::RemoveTree(staging));
}

/// On a calm machine an update of a channel succeeds whose current release is the one that it
/// offers, and changes nothing outside the directory for staging.
#[verifier::rlimit(60)]
#[verifier::spinoff_prover]
pub proof fn current_release_is_not_replaced(
    w: World,
    home: Seq<u8>,
    setting: Setting,
    channel: Channel,
    current: Installed,
    time: u128,
    offer: Offer,
)
    requires
        absolute(home),
        calm(w.outside),
        orderly(w.outside, places_below(home)),
        state_of(w, places_below(home), channel) matches Ok(selected) && selected.current == Some(
            current,
        ),
        current.record.release == offer.id,
        current.record.sha256 == offer.sha256,
        w.time().0 == Ok::<u128, Seq<char>>(time),
        ({
            let paths = places_below(home);
            let staging = within(paths.staging, staging_name(channel, setting.process, time));
            let w1 = staging_created(w, paths, channel, setting.process).1;
            let (resolved, w2) = offer_resolved(w1, setting, channel, staging);
            &&& w.listing(paths.staging) == Names::Names(seq![])
            &&& at(w.nodes, staging) is None
            &&& resolved == Ok::<Offer, Seq<char>>(offer)
            &&& at(w2.nodes, staging) matches Some(node) && node is Directory
        }),
    ensures
        ({
            let paths = places_below(home);
            let (done, after) = channels_updated(
                w,
                paths,
                setting,
                ChannelSelection::Channel(channel),
            );
            &&& done is Ok
            &&& forall|path: Seq<u8>|
                unstaged(paths, path) ==> #[trigger] at(after.nodes, path) == at(w.nodes, path)
        }),
{
    let paths = places_below(home);
    let staging = within(paths.staging, staging_name(channel, setting.process, time));
    let record = current.record;
    let line = release_line(channel, " is already current: "@, record.version, record.release);
    let after = channels_updated(w, paths, setting, ChannelSelection::Channel(channel)).1;
    let w0 = w.time().1;
    assert(w0.outside == w.outside && w0.nodes == w.nodes) by {
        reveal(World::time);
    }
    lemma_staging(home, channel, setting.process, time);
    lemma_calm_attempt(w0, Deed::MakeDirectory(staging));
    let (created, w1) = staging_created(w, paths, channel, setting.process);
    assert(created == Ok::<Seq<u8>, Seq<char>>(staging));
    let w2 = offer_resolved(w1, setting, channel, staging).1;
    lemma_active_spared(home, channel);
    staging_created_keeps(w, home, channel, setting.process, paths.active);
    offer_resolved_keeps(w1, paths, setting, channel, staging, paths.active);
    lemma_calm_attempt(w2, Deed::Print(line));
    lemma_stored(w2, Deed::Print(line));
    let w3 = printed(w2, line).1;
    assert(release_selected(w1, paths, setting, channel, Some(current), staging) == (
        Ok::<Option<Record>, Seq<char>>(None),
        w3,
    )) by {
        reveal(release_selected);
    }
    lemma_staging_finished(w3, home, channel, setting.process, time);
    assert forall|path: Seq<u8>| unstaged(paths, path) implies #[trigger] at(after.nodes, path)
        == at(w.nodes, path) by {
        staging_created_keeps(w, home, channel, setting.process, path);
        offer_resolved_keeps(w1, paths, setting, channel, staging, path);
        staging_removed_keeps(w3, paths, staging, path);
    }
}

} // verus!
