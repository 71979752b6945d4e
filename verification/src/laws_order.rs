//! In which order things are done: what is asked first, and what is on disk before what relies on
//! it.

use vstd::prelude::*;
use vstd::utf8::*;

use crate::channel::Channel;
use crate::host::{Deed, World};
use crate::install::{
    choosing_deeds, install_deeds, publication_deeds, release_published, renewal_deeds,
};
use crate::installation::{channel_target, installation_deeds, pointer_deeds, state_deeds, state_of};
use crate::laws_offer::{channel_is_asked_for_first, description_address, description_request};
use crate::metadata::{record_text, Record};
use crate::paths::{within, Places};
use crate::pointers::{
    change_closed, closing_deeds, link_draft, link_name, link_replaced, note_written, noting_deeds,
    replacing_deeds, transaction_draft,
};
use crate::programs::{offer_deeds, Setting};
use crate::staging::{creation_deeds, staging_created};
use crate::transaction::{change_text, Change};

verus! {

/// Whether no program is run.
pub open spec fn runs_nothing(deeds: Seq<Deed>) -> bool {
    forall|k: int| 0 <= k < deeds.len() ==> !(#[trigger] deeds[k] is Run)
}

proof fn lemma_runs_nothing(one: Seq<Deed>, other: Seq<Deed>)
    requires
        runs_nothing(one),
        runs_nothing(other),
    ensures
        runs_nothing(one + other),
{
    assert forall|k: int| 0 <= k < (one + other).len() implies !(#[trigger] (one + other)[k] is Run) by {
        if k < one.len() {
            assert((one + other)[k] == one[k]);
        } else {
            assert((one + other)[k] == other[k - one.len()]);
        }
    }
}

proof fn lemma_installation_runs_nothing(
    w: World,
    paths: Places,
    path: Seq<u8>,
    expected: Option<Channel>,
)
    ensures
        runs_nothing(installation_deeds(w, paths, path, expected)),
{
    reveal(installation_deeds);
}

proof fn lemma_pointer_runs_nothing(w: World, paths: Places, channel: Channel, which: Seq<char>)
    ensures
        runs_nothing(pointer_deeds(w, paths, channel, which)),
{
    reveal(pointer_deeds);
    let link = paths.link_of(channel, which);
    if let Ok(target) = w.target(link) {
        if let Ok(directory) = channel_target(target, channel, link) {
            let path = within(paths.installs, directory);
            let deeds = installation_deeds(w, paths, path, Some(channel));
            lemma_installation_runs_nothing(w, paths, path, Some(channel));
            lemma_runs_nothing(seq![Deed::ReadLink(link)], deeds);
            lemma_runs_nothing(seq![Deed::Inspect(link)], seq![Deed::ReadLink(link)] + deeds);
        }
    }
}

pub proof fn lemma_state_runs_nothing(w: World, paths: Places, channel: Channel)
    ensures
        runs_nothing(state_deeds(w, paths, channel)),
{
    reveal(state_deeds);
    lemma_pointer_runs_nothing(w, paths, channel, "current"@);
    lemma_pointer_runs_nothing(w, paths, channel, "previous"@);
    lemma_runs_nothing(
        pointer_deeds(w, paths, channel, "current"@),
        pointer_deeds(w, paths, channel, "previous"@),
    );
}

/// The first program that an installation or an update of a channel runs is the download of the
/// description of that channel, into the staging directory.
pub proof fn first_download_is_that_of_the_channel(
    w: World,
    paths: Places,
    setting: Setting,
    channel: Channel,
)
    requires
        state_of(w, paths, channel) is Ok,
        staging_created(w, paths, channel, setting.process).0 is Ok,
    ensures
        ({
            let deeds = install_deeds(w, paths, setting, channel);
            let staging = staging_created(w, paths, channel, setting.process).0->Ok_0;
            exists|n: int|
                {
                    &&& 0 <= n < deeds.len()
                    &&& runs_nothing(deeds.take(n))
                    &&& #[trigger] deeds[n] == Deed::Run(
                        description_request(
                            setting.version@,
                            description_address(channel),
                            within(staging, "release.json"@),
                        ),
                    )
                }
        }),
{
    reveal(install_deeds);
    reveal(renewal_deeds);
    reveal(choosing_deeds);
    let deeds = install_deeds(w, paths, setting, channel);
    let first = state_deeds(w, paths, channel);
    let second = creation_deeds(w, paths, channel, setting.process);
    let (created, w1) = staging_created(w, paths, channel, setting.process);
    let staging = created->Ok_0;
    let had = state_of(w, paths, channel)->Ok_0.current;
    let third = renewal_deeds(w1, paths, setting, channel, had, staging);
    lemma_state_runs_nothing(w, paths, channel);
    lemma_runs_nothing(first, second);
    channel_is_asked_for_first(w1, setting, channel, staging);
    let n = (first + second).len() as int;
    assert(deeds =~= first + second + third);
    assert(deeds.take(n) =~= first + second);
    assert(deeds[n] == third[0]);
    assert(third[0] == offer_deeds(w1, setting, channel, staging)[0]);
}

/// A release is in its place only after its description is, whole and on disk: the description is
/// written, brought to disk with the directory that holds it, and only then is the release moved,
/// and the move brought to disk.
pub proof fn release_is_stored_before_it_is_moved(
    w: World,
    paths: Places,
    root: Seq<u8>,
    place: Seq<u8>,
    record: Record,
)
    requires
        release_published(w, paths, root, place, record).0 is Ok,
    ensures
        ({
            let file = within(root, ".nv-metadata"@);
            publication_deeds(w, paths, root, place, record) == seq![
                Deed::CreateNew(file),
                Deed::Write(file, record_text(record)),
                Deed::Flush(file),
                Deed::SyncFile(file),
                Deed::SyncDirectory(root),
                Deed::Rename(root, place),
                Deed::SyncDirectory(paths.installs),
            ]
        }),
{
    reveal(release_published);
    let file = within(root, ".nv-metadata"@);
    assert(publication_deeds(w, paths, root, place, record) =~= seq![
        Deed::CreateNew(file),
        Deed::Write(file, record_text(record)),
        Deed::Flush(file),
        Deed::SyncFile(file),
        Deed::SyncDirectory(root),
        Deed::Rename(root, place),
        Deed::SyncDirectory(paths.installs),
    ]);
}

/// A change of links begins only after its note is, whole and on disk, in its place.
pub proof fn note_is_stored_before_the_change(w: World, paths: Places, change: Change)
    requires
        note_written(w, paths, change).0 is Ok,
    ensures
        ({
            let draft = transaction_draft(paths);
            noting_deeds(w, paths, change) == seq![
                Deed::CreateNew(draft),
                Deed::Write(draft, change_text(change)),
                Deed::SyncFile(draft),
                Deed::Rename(draft, paths.transaction),
                Deed::SyncDirectory(paths.state),
            ]
        }),
{
    let draft = transaction_draft(paths);
    assert(noting_deeds(w, paths, change) =~= seq![
        Deed::CreateNew(draft),
        Deed::Write(draft, change_text(change)),
        Deed::SyncFile(draft),
        Deed::Rename(draft, paths.transaction),
        Deed::SyncDirectory(paths.state),
    ]);
}

/// The note of a change is removed only after the links are on disk, and that is brought to disk
/// too.
pub proof fn links_are_stored_before_the_note_goes(w: World, paths: Places, change: Change)
    requires
        change_closed(w, paths, change).0 is Ok,
    ensures
        closing_deeds(w, paths, change) == state_deeds(w, paths, change.channel) + seq![
            Deed::SyncDirectory(paths.directory_of(change.channel)),
            Deed::RemoveFile(paths.transaction),
            Deed::SyncDirectory(paths.state),
        ],
{
    assert(closing_deeds(w, paths, change) =~= state_deeds(w, paths, change.channel) + seq![
        Deed::SyncDirectory(paths.directory_of(change.channel)),
        Deed::RemoveFile(paths.transaction),
        Deed::SyncDirectory(paths.state),
    ]);
}

/// A link is never missing while it is replaced: the new link is made beside it and then takes its
/// place in one step.
pub proof fn link_is_replaced_in_one_step(w: World, link: Seq<u8>, target: Seq<u8>)
    requires
        link_replaced(w, link, target).0 is Ok,
    ensures
        link_name(link) matches Some(name) && {
            let draft = link_draft(link, name);
            ||| w.sight(draft) is Absent && replacing_deeds(w, link, target) == seq![
                Deed::Inspect(draft),
                Deed::Link(target, draft),
                Deed::Rename(draft, link),
            ]
            ||| w.sight(draft) is Present && replacing_deeds(w, link, target) == seq![
                Deed::Inspect(draft),
                Deed::ReadLink(draft),
                Deed::Rename(draft, link),
            ]
        },
{
    let draft = link_draft(link, link_name(link)->0);
    if w.sight(draft) is Absent {
        assert(replacing_deeds(w, link, target) =~= seq![
            Deed::Inspect(draft),
            Deed::Link(target, draft),
            Deed::Rename(draft, link),
        ]);
    } else {
        assert(replacing_deeds(w, link, target) =~= seq![
            Deed::Inspect(draft),
            Deed::ReadLink(draft),
            Deed::Rename(draft, link),
        ]);
    }
}

} // verus!
