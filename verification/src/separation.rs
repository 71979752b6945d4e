//! Which of the places that nv manages are apart from one another.

use vstd::prelude::*;
use vstd::utf8::*;

use crate::changes::{concerns, lemma_byte, lemma_channel_places};
use crate::channel::Channel;
use crate::disk::is_managed;
use crate::frames::{above_nothing, lemma_inside};
use crate::host::reaches;
use crate::locate::{
    ascii, below, draft_name, is_name, lemma_apart, lemma_draft, lemma_names, lemma_places,
    lemma_release_name, root_of,
};
use crate::metadata::install_name_read_back;
use crate::path::absolute;
use crate::paths::{install_name, layout, places_below, within, Places};
use crate::pointers::transaction_draft;
use crate::release::is_release_id;
use crate::transaction::names_release_of;

verus! {

/// Whether a path is one that nv manages but does not touch when it only puts a release together.
pub open spec fn unstaged(paths: Places, path: Seq<u8>) -> bool {
    is_managed(paths, path) && !reaches(paths.staging, path)
}

/// Whether a path is one that nv manages but does not touch when it installs a release of a
/// channel.
pub open spec fn spared(paths: Places, channel: Channel, path: Seq<u8>) -> bool {
    unstaged(paths, path) && !reaches(paths.installs, path) && !concerns(paths, channel, path)
}

/// The place of a release is in the directory of releases.
pub proof fn lemma_install_place(home: Seq<u8>, channel: Channel, release: Seq<char>)
    requires
        absolute(home),
        is_release_id(release),
    ensures
        ({
            let paths = places_below(home);
            let name = install_name(channel, release);
            &&& is_name(name)
            &&& paths.install_of(channel, release) == below(paths.installs, name)
            &&& reaches(paths.installs, paths.install_of(channel, release))
        }),
{
    let paths = places_below(home);
    let name = install_name(channel, release);
    lemma_places(home);
    install_name_read_back(channel, release);
    lemma_release_name(name, channel);
    lemma_draft(paths.installs, name);
    let place = below(paths.installs, name);
    assert(place.take(paths.installs.len() as int) =~= paths.installs);
}

/// The bytes by which the places in the state directory differ.
pub proof fn lemma_state_bytes(home: Seq<u8>, channel: Channel)
    requires
        absolute(home),
    ensures
        ({
            let paths = places_below(home);
            let n = paths.state.len() as int + 1;
            let directory = paths.directory_of(channel);
            &&& paths.installs.len() > n && paths.installs[n] == 105
            &&& paths.channels.len() > n && paths.channels[n] == 99
            &&& paths.staging.len() > n && paths.staging[n] == 115
            &&& paths.active.len() > n && paths.active[n] == 97
            &&& paths.transaction.len() > n && paths.transaction[n] == 112
            &&& transaction_draft(paths).len() > n && transaction_draft(paths)[n] == 46
            &&& directory.len() > n && directory[n] == 99
            &&& forall|name: Seq<char>|
                #![trigger below(directory, name)]
                below(directory, name).len() > n && below(directory, name)[n] == 99
            &&& reaches(paths.state, paths.active)
        }),
{
    let paths = places_below(home);
    let n = paths.state.len() as int + 1;
    lemma_places(home);
    lemma_names();
    lemma_channel_places(home, channel);
    reveal_strlit("installs");
    reveal_strlit("channels");
    reveal_strlit("staging");
    reveal_strlit("active");
    reveal_strlit("pointer.transaction");
    reveal_strlit(".pointer.transaction.nv-new");
    lemma_byte(paths.state, "installs"@);
    lemma_byte(paths.state, "channels"@);
    lemma_byte(paths.state, "staging"@);
    lemma_byte(paths.state, "active"@);
    lemma_byte(paths.state, "pointer.transaction"@);
    lemma_byte(paths.state, ".pointer.transaction.nv-new"@);
    let directory = paths.directory_of(channel);
    assert(directory[n] == paths.channels[n]);
    assert(paths.active.take(paths.state.len() as int) =~= paths.state);
}

/// What is in the directory of releases is none of the places that a change is about.
pub proof fn lemma_installs_unconcerned(home: Seq<u8>, channel: Channel, path: Seq<u8>)
    requires
        absolute(home),
        reaches(places_below(home).installs, path),
    ensures
        !concerns(places_below(home), channel, path),
{
    let paths = places_below(home);
    let n = paths.state.len() as int + 1;
    let directory = paths.directory_of(channel);
    lemma_state_bytes(home, channel);
    assert(path.take(paths.installs.len() as int)[n] == paths.installs[n]);
    lemma_apart(paths.transaction, path, n);
    lemma_apart(transaction_draft(paths), path, n);
    lemma_apart(below(directory, "current"@), path, n);
    lemma_apart(below(directory, "previous"@), path, n);
    lemma_apart(below(directory, draft_name("current"@)), path, n);
    lemma_apart(below(directory, draft_name("previous"@)), path, n);
}

/// The parts of a release that nv reads are in the directory of releases.
pub proof fn lemma_release_parts(home: Seq<u8>, channel: Channel, name: Seq<char>)
    requires
        absolute(home),
        names_release_of(name, channel),
    ensures
        ({
            let paths = places_below(home);
            let path = within(paths.installs, name);
            &&& reaches(paths.installs, path)
            &&& reaches(paths.installs, within(path, "bin/nvim"@))
            &&& reaches(paths.installs, within(path, ".nv-metadata"@))
        }),
{
    let paths = places_below(home);
    lemma_places(home);
    lemma_release_name(name, channel);
    lemma_inside(paths.installs, paths.installs, name);
    reveal_strlit("bin/nvim");
    reveal_strlit(".nv-metadata");
    lemma_inside(paths.installs, within(paths.installs, name), "bin/nvim"@);
    lemma_inside(paths.installs, within(paths.installs, name), ".nv-metadata"@);
}

/// The link of the channel in use is none of the places that an installation is about.
pub proof fn lemma_active_spared(home: Seq<u8>, channel: Channel)
    requires
        absolute(home),
    ensures
        spared(places_below(home), channel, places_below(home).active),
        above_nothing(places_below(home), places_below(home).active),
{
    let paths = places_below(home);
    let n = paths.state.len() as int + 1;
    let directory = paths.directory_of(channel);
    lemma_state_bytes(home, channel);
    lemma_state_bytes(home, Channel::Stable);
    lemma_state_bytes(home, Channel::Nightly);
    lemma_apart(paths.staging, paths.active, n);
    lemma_apart(paths.installs, paths.active, n);
    lemma_apart(paths.transaction, paths.active, n);
    lemma_apart(transaction_draft(paths), paths.active, n);
    lemma_apart(below(directory, "current"@), paths.active, n);
    lemma_apart(below(directory, "previous"@), paths.active, n);
    lemma_apart(below(directory, draft_name("current"@)), paths.active, n);
    lemma_apart(below(directory, draft_name("previous"@)), paths.active, n);
    assert forall|k: int| 0 <= k < layout(paths).len() implies !reaches(
        paths.active,
        #[trigger] layout(paths)[k],
    ) by {
        lemma_apart(paths.active, layout(paths)[k], n);
    }
}

/// Where the state directory and the directory of executables part.
pub proof fn lemma_home_bytes(home: Seq<u8>)
    requires
        absolute(home),
    ensures
        ({
            let paths = places_below(home);
            let n = root_of(home).len() as int + 7;
            &&& paths.state.len() > n && paths.state[n] == 115
            &&& paths.local_bin.len() > n && paths.local_bin[n] == 98
            &&& forall|name: Seq<char>|
                #![trigger below(paths.local_bin, name)]
                below(paths.local_bin, name).len() > n && below(paths.local_bin, name)[n] == 98
            &&& forall|path: Seq<u8>| #[trigger]
                reaches(paths.state, path) ==> path.len() > n && path[n] == 115
        }),
{
    let paths = places_below(home);
    let n = root_of(home).len() as int + 7;
    lemma_places(home);
    reveal_strlit(".local/share/nv");
    reveal_strlit(".local/bin");
    assert(paths.state[n] == ascii(".local/share/nv"@)[7]);
    assert(paths.local_bin[n] == ascii(".local/bin"@)[7]);
    assert forall|path: Seq<u8>| #[trigger] reaches(paths.state, path) implies path.len() > n
        && path[n] == 115 by {
        if path != paths.state {
            assert(path.take(paths.state.len() as int)[n] == path[n]);
        }
    }
}

/// What is in the state directory and the executable are apart.
pub proof fn lemma_parting(home: Seq<u8>, path: Seq<u8>)
    requires
        absolute(home),
        reaches(places_below(home).state, path),
    ensures
        path != places_below(home).nvim_link,
        !reaches(path, places_below(home).nvim_link),
        !reaches(places_below(home).nvim_link, path),
{
    lemma_places(home);
    lemma_home_bytes(home);
    lemma_apart(path, places_below(home).nvim_link, root_of(home).len() as int + 7);
}

/// All places of the state are in the state directory.
#[verifier::rlimit(60)]
#[verifier::spinoff_prover]
pub proof fn lemma_in_state(home: Seq<u8>, channel: Channel)
    requires
        absolute(home),
    ensures
        ({
            let paths = places_below(home);
            let directory = paths.directory_of(channel);
            &&& reaches(paths.state, paths.installs)
            &&& reaches(paths.state, paths.channels)
            &&& reaches(paths.state, paths.staging)
            &&& reaches(paths.state, paths.transaction)
            &&& reaches(paths.state, transaction_draft(paths))
            &&& reaches(paths.state, directory)
            &&& forall|name: Seq<char>| #[trigger] reaches(paths.state, below(directory, name))
        }),
{
    let paths = places_below(home);
    let directory = paths.directory_of(channel);
    let n = paths.state.len() as int;
    lemma_places(home);
    lemma_channel_places(home, channel);
    assert(paths.installs.take(n) =~= paths.state);
    assert(paths.channels.take(n) =~= paths.state);
    assert(paths.staging.take(n) =~= paths.state);
    assert(paths.transaction.take(n) =~= paths.state);
    assert(transaction_draft(paths).take(n) =~= paths.state);
    assert(directory.take(n) =~= paths.state);
    assert(directory[n] == paths.channels[n]);
    assert forall|name: Seq<char>| #[trigger] reaches(paths.state, below(directory, name)) by {
        let path = below(directory, name);
        assert(path.take(n) =~= paths.state);
        assert(path[n] == directory[n]);
    }
}

/// The executable is none of the places that an installation is about.
pub proof fn lemma_nvim_spared(home: Seq<u8>, channel: Channel)
    requires
        absolute(home),
    ensures
        spared(places_below(home), channel, places_below(home).nvim_link),
        above_nothing(places_below(home), places_below(home).nvim_link),
{
    let paths = places_below(home);
    let n = root_of(home).len() as int + 7;
    let directory = paths.directory_of(channel);
    let link = paths.nvim_link;
    lemma_places(home);
    lemma_home_bytes(home);
    lemma_in_state(home, channel);
    lemma_in_state(home, Channel::Stable);
    lemma_in_state(home, Channel::Nightly);
    assert(link.take(paths.local_bin.len() as int) =~= paths.local_bin);
    assert(reaches(paths.state, below(directory, "current"@)));
    assert(reaches(paths.state, below(directory, "previous"@)));
    assert(reaches(paths.state, below(directory, draft_name("current"@))));
    assert(reaches(paths.state, below(directory, draft_name("previous"@))));
    lemma_apart(paths.staging, link, n);
    lemma_apart(paths.installs, link, n);
    lemma_apart(paths.transaction, link, n);
    lemma_apart(transaction_draft(paths), link, n);
    lemma_apart(below(directory, "current"@), link, n);
    lemma_apart(below(directory, "previous"@), link, n);
    lemma_apart(below(directory, draft_name("current"@)), link, n);
    lemma_apart(below(directory, draft_name("previous"@)), link, n);
    assert forall|k: int| 0 <= k < layout(paths).len() implies !reaches(
        link,
        #[trigger] layout(paths)[k],
    ) by {
        assert(reaches(paths.state, layout(paths)[k]));
        lemma_apart(link, layout(paths)[k], n);
    }
}

/// The directories of the two channels differ at the first byte of their names.
proof fn lemma_directories_part(home: Seq<u8>, channel: Channel, other: Channel)
    requires
        absolute(home),
        other != channel,
    ensures
        ({
            let paths = places_below(home);
            let m = paths.channels.len() as int + 1;
            let directory = paths.directory_of(channel);
            let own = paths.directory_of(other);
            &&& directory.len() > m && own.len() > m && directory[m] != own[m]
            &&& own.len() > paths.channels.len()
        }),
{
    let paths = places_below(home);
    lemma_channel_places(home, channel);
    lemma_channel_places(home, other);
    reveal_strlit("stable");
    reveal_strlit("nightly");
    lemma_byte(paths.channels, channel.name());
    lemma_byte(paths.channels, other.name());
}

/// A link of one channel is none of the places that a change of the other is about.
proof fn lemma_links_unconcerned(home: Seq<u8>, channel: Channel, other: Channel, name: Seq<char>)
    requires
        absolute(home),
        other != channel,
    ensures
        !concerns(
            places_below(home),
            channel,
            below(places_below(home).directory_of(other), name),
        ),
{
    let paths = places_below(home);
    let n = paths.state.len() as int + 1;
    let m = paths.channels.len() as int + 1;
    let directory = paths.directory_of(channel);
    let own = paths.directory_of(other);
    let link = below(own, name);
    lemma_state_bytes(home, channel);
    lemma_state_bytes(home, other);
    lemma_directories_part(home, channel, other);
    assert(link[m] == own[m]);
    lemma_apart(paths.transaction, link, n);
    lemma_apart(transaction_draft(paths), link, n);
    assert(below(directory, "current"@)[m] == directory[m]);
    assert(below(directory, "previous"@)[m] == directory[m]);
    assert(below(directory, draft_name("current"@))[m] == directory[m]);
    assert(below(directory, draft_name("previous"@))[m] == directory[m]);
    lemma_apart(below(directory, "current"@), link, m);
    lemma_apart(below(directory, "previous"@), link, m);
    lemma_apart(below(directory, draft_name("current"@)), link, m);
    lemma_apart(below(directory, draft_name("previous"@)), link, m);
}

/// A link of a channel is above no directory of the state, and not among the releases.
pub proof fn lemma_link_place(home: Seq<u8>, channel: Channel, name: Seq<char>)
    requires
        absolute(home),
        is_name(name),
    ensures
        ({
            let paths = places_below(home);
            let link = below(paths.directory_of(channel), name);
            &&& above_nothing(paths, link)
            &&& unstaged(paths, link)
            &&& !reaches(paths.installs, link)
            &&& paths.link_of(channel, name) == link
        }),
{
    let paths = places_below(home);
    let n = paths.state.len() as int + 1;
    let m = paths.channels.len() as int + 1;
    let other = if channel == Channel::Stable {
        Channel::Nightly
    } else {
        Channel::Stable
    };
    let own = paths.directory_of(channel);
    let link = below(own, name);
    lemma_channel_places(home, channel);
    lemma_draft(own, name);
    lemma_state_bytes(home, channel);
    lemma_in_state(home, channel);
    lemma_directories_part(home, other, channel);
    assert(reaches(paths.state, link));
    lemma_apart(paths.staging, link, n);
    lemma_apart(paths.installs, link, n);
    assert(link[m] == own[m]);
    lemma_apart(link, paths.directory_of(other), m);
    assert(own.len() < link.len());
    assert forall|k: int| 0 <= k < layout(paths).len() implies !reaches(
        link,
        #[trigger] layout(paths)[k],
    ) by {
        let place = layout(paths)[k];
        assert(place == paths.installs || place == paths.channels || place == paths.staging
            || place == own || place == paths.directory_of(other));
        if place == paths.installs || place == paths.staging {
            lemma_apart(link, place, n);
        }
    }
}

/// The links of one channel are none of the places that an installation of the other is about.
pub proof fn lemma_links_spared(home: Seq<u8>, channel: Channel, other: Channel, name: Seq<char>)
    requires
        absolute(home),
        other != channel,
        is_name(name),
    ensures
        spared(places_below(home), channel, places_below(home).link_of(other, name)),
{
    lemma_link_place(home, other, name);
    lemma_links_unconcerned(home, channel, other, name);
}

} // verus!
