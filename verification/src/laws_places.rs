//! Where everything is: the places below the home directory, and what the links there point to.

use vstd::prelude::*;
use vstd::utf8::*;

use crate::activation::active_target;
use crate::changes::lemma_channel_places;
use crate::channel::Channel;
use crate::laws_words::spelling;
use crate::locate::{
    ascii, below, draft_name, lemma_ascii, lemma_draft, lemma_names, lemma_places,
    lemma_release_name, lemma_sibling, lemma_within, root_of,
};
use crate::metadata::install_name_read_back;
use crate::path::{absolute, shown};
use crate::paths::{
    install_name, layout, link_target, places_below, places_of, NVIM_LINK_TARGET, Places,
};
use crate::pointers::{link_draft, transaction_draft};
use crate::release::is_release_id;
use crate::separation::lemma_install_place;
use crate::staging::staging_name;
use crate::text::decimal;

verus! {

/// The bytes of a text in which every character is one byte.
pub open spec fn plain(text: Seq<char>) -> Seq<u8> {
    Seq::new(text.len(), |k: int| text[k] as u8)
}

/// What is at `text` below the home directory.
pub open spec fn at_home(home: Seq<u8>, text: Seq<char>) -> Seq<u8> {
    if home.last() == 47 {
        home + plain(text)
    } else {
        home + seq![47u8] + plain(text)
    }
}

proof fn lemma_plain(text: Seq<char>)
    ensures
        ascii(text) == plain(text),
{
    assert(ascii(text) =~= plain(text));
}

proof fn lemma_after(base: Seq<u8>, text: Seq<char>, tail: Seq<char>)
    requires
        tail.len() == text.len() + 1,
        tail[0] == '/',
        forall|k: int| 0 <= k < text.len() ==> tail[k + 1] == #[trigger] text[k],
    ensures
        below(base, text) == base + plain(tail),
{
    assert forall|k: int| 0 <= k < below(base, text).len() implies #[trigger] below(base, text)[k]
        == (base + plain(tail))[k] by {
        if k > base.len() {
            let j = k - base.len() - 1;
            assert(tail[j + 1] == text[j]);
        }
    }
    assert(below(base, text) =~= base + plain(tail));
}

/// The state of nv is in `.local/share/nv` of the home directory and the executable in
/// `.local/bin`; the directories and files of the state have their names in it.
pub proof fn places_have_their_names(home: Seq<u8>)
    requires
        absolute(home),
    ensures
        ({
            let paths = places_below(home);
            &&& paths.state == at_home(home, ".local/share/nv"@)
            &&& paths.installs == paths.state + plain("/installs"@)
            &&& paths.channels == paths.state + plain("/channels"@)
            &&& paths.staging == paths.state + plain("/staging"@)
            &&& paths.active == paths.state + plain("/active"@)
            &&& paths.lock == paths.state + plain("/operation.lock"@)
            &&& paths.transaction == paths.state + plain("/pointer.transaction"@)
            &&& transaction_draft(paths) == paths.state + plain("/.pointer.transaction.nv-new"@)
            &&& paths.local_bin == at_home(home, ".local/bin"@)
            &&& paths.nvim_link == paths.local_bin + plain("/nvim"@)
        }),
{
    let paths = places_below(home);
    lemma_places(home);
    lemma_names();
    lemma_plain(".local/share/nv"@);
    lemma_plain(".local/bin"@);
    assert(at_home(home, ".local/share/nv"@) =~= root_of(home) + plain(".local/share/nv"@));
    assert(at_home(home, ".local/bin"@) =~= root_of(home) + plain(".local/bin"@));
    lemma_sibling(paths.state, "pointer.transaction"@, ".pointer.transaction.nv-new"@);
    lemma_tails();
    lemma_after(paths.state, "installs"@, "/installs"@);
    lemma_after(paths.state, "channels"@, "/channels"@);
    lemma_after(paths.state, "staging"@, "/staging"@);
    lemma_after(paths.state, "active"@, "/active"@);
    lemma_after(paths.state, "operation.lock"@, "/operation.lock"@);
    lemma_after(paths.state, "pointer.transaction"@, "/pointer.transaction"@);
    lemma_after(paths.state, ".pointer.transaction.nv-new"@, "/.pointer.transaction.nv-new"@);
    lemma_after(paths.local_bin, "nvim"@, "/nvim"@);
    lemma_channel_places(home, Channel::Stable);
}

/// Whether a text is another one with a slash in front.
spec fn slashed(tail: Seq<char>, text: Seq<char>) -> bool {
    &&& tail.len() == text.len() + 1
    &&& tail[0] == '/'
    &&& forall|k: int| 0 <= k < text.len() ==> tail[k + 1] == #[trigger] text[k]
}

proof fn lemma_tails()
    ensures
        slashed("/installs"@, "installs"@),
        slashed("/channels"@, "channels"@),
        slashed("/staging"@, "staging"@),
        slashed("/active"@, "active"@),
        slashed("/operation.lock"@, "operation.lock"@),
        slashed("/pointer.transaction"@, "pointer.transaction"@),
        slashed("/.pointer.transaction.nv-new"@, ".pointer.transaction.nv-new"@),
        slashed("/nvim"@, "nvim"@),
        slashed("/stable"@, "stable"@),
        slashed("/nightly"@, "nightly"@),
        slashed("/current"@, "current"@),
        slashed("/previous"@, "previous"@),
{
    reveal_strlit("/installs");
    reveal_strlit("installs");
    reveal_strlit("/channels");
    reveal_strlit("channels");
    reveal_strlit("/staging");
    reveal_strlit("staging");
    reveal_strlit("/active");
    reveal_strlit("active");
    reveal_strlit("/operation.lock");
    reveal_strlit("operation.lock");
    reveal_strlit("/pointer.transaction");
    reveal_strlit("pointer.transaction");
    reveal_strlit("/.pointer.transaction.nv-new");
    reveal_strlit(".pointer.transaction.nv-new");
    reveal_strlit("/nvim");
    reveal_strlit("nvim");
    reveal_strlit("/stable");
    reveal_strlit("stable");
    reveal_strlit("/nightly");
    reveal_strlit("nightly");
    reveal_strlit("/current");
    reveal_strlit("current");
    reveal_strlit("/previous");
    reveal_strlit("previous");
}

/// Each channel has its own directory, with a link `current` and a link `previous` in it, and each
/// release a directory that is named after the channel and the release.
pub proof fn channels_have_their_places(home: Seq<u8>, channel: Channel, release: Seq<char>)
    requires
        absolute(home),
        is_release_id(release),
    ensures
        ({
            let paths = places_below(home);
            let directory = match channel {
                Channel::Stable => paths.channels + plain("/stable"@),
                Channel::Nightly => paths.channels + plain("/nightly"@),
            };
            &&& paths.directory_of(channel) == directory
            &&& paths.link_of(channel, "current"@) == directory + plain("/current"@)
            &&& paths.link_of(channel, "previous"@) == directory + plain("/previous"@)
            &&& paths.install_of(channel, release) == paths.installs + plain(
                "/"@ + spelling(channel) + "-"@ + release,
            )
            &&& link_target(spelling(channel) + "-"@ + release) == plain("../../installs/"@)
                + plain(spelling(channel) + "-"@ + release)
        }),
{
    lemma_links_placed(home, channel);
    lemma_release_placed(home, channel, release);
    lemma_link_text(channel, release);
}

proof fn lemma_links_placed(home: Seq<u8>, channel: Channel)
    requires
        absolute(home),
    ensures
        ({
            let paths = places_below(home);
            let directory = paths.directory_of(channel);
            &&& channel == Channel::Stable ==> directory == paths.channels + plain("/stable"@)
            &&& channel == Channel::Nightly ==> directory == paths.channels + plain("/nightly"@)
            &&& paths.link_of(channel, "current"@) == directory + plain("/current"@)
            &&& paths.link_of(channel, "previous"@) == directory + plain("/previous"@)
        }),
{
    let paths = places_below(home);
    let directory = paths.directory_of(channel);
    lemma_places(home);
    lemma_names();
    lemma_tails();
    lemma_channel_places(home, channel);
    lemma_draft(paths.channels, spelling(channel));
    lemma_draft(directory, "current"@);
    lemma_draft(directory, "previous"@);
    lemma_after(paths.channels, "stable"@, "/stable"@);
    lemma_after(paths.channels, "nightly"@, "/nightly"@);
    lemma_after(directory, "current"@, "/current"@);
    lemma_after(directory, "previous"@, "/previous"@);
}

proof fn lemma_release_placed(home: Seq<u8>, channel: Channel, release: Seq<char>)
    requires
        absolute(home),
        is_release_id(release),
    ensures
        places_below(home).install_of(channel, release) == places_below(home).installs + plain(
            "/"@ + spelling(channel) + "-"@ + release,
        ),
{
    let paths = places_below(home);
    let name = install_name(channel, release);
    lemma_install_place(home, channel, release);
    reveal_strlit("/");
    let tail = "/"@ + spelling(channel) + "-"@ + release;
    assert(tail =~= "/"@ + name);
    lemma_after(paths.installs, name, tail);
}

proof fn lemma_link_text(channel: Channel, release: Seq<char>)
    requires
        is_release_id(release),
    ensures
        link_target(spelling(channel) + "-"@ + release) == plain("../../installs/"@) + plain(
            spelling(channel) + "-"@ + release,
        ),
{
    let name = install_name(channel, release);
    let base = ascii("../../installs"@);
    install_name_read_back(channel, release);
    lemma_release_name(name, channel);
    reveal_strlit("../../installs");
    reveal_strlit("../../installs/");
    lemma_ascii("../../installs"@);
    lemma_ascii(name);
    assert(base.len() == 14 && base[13] == 115);
    lemma_within(base, name);
    lemma_plain(name);
    assert(base.push(47u8) =~= plain("../../installs/"@));
    assert(name == spelling(channel) + "-"@ + release);
    assert(link_target(name) == below(base, name));
    assert(below(base, name) =~= plain("../../installs/"@) + plain(name));
}

/// The link of the channel in use points to that channel's current release, the executable to the
/// channel in use, and a link is made under a name that is derived from its own.
pub proof fn links_point_onwards(home: Seq<u8>, channel: Channel)
    requires
        absolute(home),
    ensures
        active_target(Channel::Stable) == plain("channels/stable/current"@),
        active_target(Channel::Nightly) == plain("channels/nightly/current"@),
        encode_utf8(NVIM_LINK_TARGET@) == plain("../share/nv/active/bin/nvim"@),
        ({
            let paths = places_below(home);
            let directory = paths.directory_of(channel);
            &&& link_draft(paths.active, "active"@) == paths.state + plain("/.active.nv-new"@)
            &&& link_draft(paths.nvim_link, "nvim"@) == paths.local_bin + plain("/.nvim.nv-new"@)
            &&& link_draft(paths.link_of(channel, "current"@), "current"@) == directory + plain(
                "/.current.nv-new"@,
            )
            &&& link_draft(paths.link_of(channel, "previous"@), "previous"@) == directory + plain(
                "/.previous.nv-new"@,
            )
        }),
{
    lemma_drafts_placed(home, channel);
    lemma_executable_target();
    lemma_targets();
}

proof fn lemma_executable_target()
    ensures
        encode_utf8(NVIM_LINK_TARGET@) == plain("../share/nv/active/bin/nvim"@),
{
    let text = "../share/nv/active/bin/nvim"@;
    assert(is_ascii_chars(text)) by {
        reveal_strlit("../share/nv/active/bin/nvim");
    }
    lemma_ascii(text);
    lemma_plain(text);
}

proof fn lemma_targets()
    ensures
        active_target(Channel::Stable) == plain("channels/stable/current"@),
        active_target(Channel::Nightly) == plain("channels/nightly/current"@),
{
    lemma_active_target(Channel::Stable);
    lemma_active_target(Channel::Nightly);
    reveal_strlit("channels");
    reveal_strlit("stable");
    reveal_strlit("nightly");
    reveal_strlit("current");
    reveal_strlit("channels/stable/current");
    reveal_strlit("channels/nightly/current");
    assert(plain("channels"@) + seq![47u8] + plain("stable"@) + seq![47u8] + plain("current"@)
        =~= plain("channels/stable/current"@));
    assert(plain("channels"@) + seq![47u8] + plain("nightly"@) + seq![47u8] + plain("current"@)
        =~= plain("channels/nightly/current"@));
}

proof fn lemma_drafts_placed(home: Seq<u8>, channel: Channel)
    requires
        absolute(home),
    ensures
        ({
            let paths = places_below(home);
            let directory = paths.directory_of(channel);
            &&& link_draft(paths.active, "active"@) == paths.state + plain("/.active.nv-new"@)
            &&& link_draft(paths.nvim_link, "nvim"@) == paths.local_bin + plain("/.nvim.nv-new"@)
            &&& link_draft(paths.link_of(channel, "current"@), "current"@) == directory + plain(
                "/.current.nv-new"@,
            )
            &&& link_draft(paths.link_of(channel, "previous"@), "previous"@) == directory + plain(
                "/.previous.nv-new"@,
            )
        }),
{
    let paths = places_below(home);
    let directory = paths.directory_of(channel);
    lemma_places(home);
    lemma_names();
    lemma_channel_places(home, channel);
    lemma_draft(paths.state, "active"@);
    lemma_draft(paths.local_bin, "nvim"@);
    lemma_draft(directory, "current"@);
    lemma_draft(directory, "previous"@);
    lemma_drafts();
    lemma_after(paths.state, draft_name("active"@), "/.active.nv-new"@);
    lemma_after(paths.local_bin, draft_name("nvim"@), "/.nvim.nv-new"@);
    lemma_after(directory, draft_name("current"@), "/.current.nv-new"@);
    lemma_after(directory, draft_name("previous"@), "/.previous.nv-new"@);
}

proof fn lemma_active_target(channel: Channel)
    ensures
        active_target(channel) == plain("channels"@) + seq![47u8] + plain(spelling(channel))
            + seq![47u8] + plain("current"@),
{
    lemma_names();
    reveal_strlit("channels");
    lemma_ascii("channels"@);
    lemma_plain("channels"@);
    lemma_plain(spelling(channel));
    lemma_plain("current"@);
    let base = ascii("channels"@);
    lemma_within(base, spelling(channel));
    lemma_within(below(base, spelling(channel)), "current"@);
    assert(active_target(channel) =~= plain("channels"@) + seq![47u8] + plain(spelling(channel))
        + seq![47u8] + plain("current"@));
}

proof fn lemma_drafts()
    ensures
        slashed("/.active.nv-new"@, draft_name("active"@)),
        slashed("/.nvim.nv-new"@, draft_name("nvim"@)),
        slashed("/.current.nv-new"@, draft_name("current"@)),
        slashed("/.previous.nv-new"@, draft_name("previous"@)),
{
    reveal_strlit("/.active.nv-new");
    reveal_strlit("/.nvim.nv-new");
    reveal_strlit("/.current.nv-new");
    reveal_strlit("/.previous.nv-new");
    reveal_strlit("active");
    reveal_strlit("nvim");
    reveal_strlit("current");
    reveal_strlit("previous");
    reveal_strlit(".");
    reveal_strlit(".nv-new");
}

/// The home directory must be set, and be an absolute path.
pub proof fn home_must_be_absolute(home: Seq<u8>)
    ensures
        places_of(None) == Err::<Places, Seq<char>>("HOME is not set"@),
        home.len() == 0 ==> places_of(Some(home)) == Err::<Places, Seq<char>>("HOME is empty"@),
        home.len() > 0 && home[0] != 47 ==> places_of(Some(home)) == Err::<Places, Seq<char>>(
            "HOME must be an absolute path, got "@ + shown(home),
        ),
        home.len() > 0 && home[0] == 47 ==> places_of(Some(home)) == Ok::<Places, Seq<char>>(
            places_below(home),
        ),
{
}

/// The state consists of the directories of releases, of channels and for staging, and of one for
/// each channel.
pub proof fn state_has_five_directories(paths: Places)
    ensures
        layout(paths) == seq![
            paths.installs,
            paths.channels,
            paths.staging,
            paths.directory_of(Channel::Stable),
            paths.directory_of(Channel::Nightly),
        ],
{
}

/// A staging directory is named after the channel, the process and the time.
pub proof fn staging_directory_is_named(channel: Channel, process: u32, time: u128)
    ensures
        staging_name(channel, process, time) == spelling(channel) + "-"@ + decimal(process as nat)
            + "-"@ + decimal(time as nat),
{
}

} // verus!
