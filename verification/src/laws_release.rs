//! What becomes of the archive of a release until the release is in its place.

use vstd::prelude::*;
use vstd::utf8::*;

use crate::channel::Channel;
use crate::disk::{at, lemma_created_file, lemma_done, lemma_stored, lemma_written};
use crate::host::{moved, reaches, Deed, Entry, Invocation, Names, Node, Sight, World};
use crate::install::{
    archive_fetched, record_of, release_added, release_obtained, release_published, release_staged,
};
use crate::installation::installation_at;
use crate::laws_accepted::{steers, version_follows_the_name};
use crate::laws_files::{describable, description_has_five_lines, description_lines, tells_version};
use crate::laws_offer::{complied, helpers_are_asked, unpacking_request, wrote};
use crate::laws_success::unpacked;
use crate::laws_words::lemma_decoded;
use crate::layout::synced;
use crate::metadata::{record_text, Record};
use crate::paths::{within, Places};
use crate::programs::{extracted_root, version_in, version_reported, Offer, Setting};
use crate::text::{is_line, lemma_first_line, lines};

verus! {

/// A release is noted down with the channel that it was installed for, the number and the digest
/// that it was offered with, the version that it reports, and the name of its archive.
pub proof fn record_says_what_was_offered(channel: Channel, offer: Offer, version: Seq<char>)
    ensures
        ({
            let record = record_of(channel, offer, version);
            &&& record.channel == channel
            &&& record.release == offer.id
            &&& record.sha256 == offer.sha256
            &&& record.version == version
            &&& record.asset == "nvim-linux-x86_64.tar.gz"@
        }),
{
}

/// The version of a Neovim is the first line of what it reports, if that is a version.
pub proof fn version_is_the_first_line(
    line: Seq<char>,
    rest: Seq<char>,
    text: Seq<char>,
    executable: Seq<u8>,
)
    requires
        tells_version(line),
    ensures
        version_in(line + "\n"@ + rest, executable) == Ok::<Seq<char>, Seq<char>>(line),
        version_in(text, executable) matches Ok(version) ==> tells_version(version) && lines(
            text,
        ).len() > 0 && lines(text)[0] == version,
        version_in(text, executable) is Err ==> lines(text).len() == 0 || !tells_version(
            lines(text)[0],
        ),
{
    version_follows_the_name(line);
    lemma_version_line(line);
    lemma_first_line(line, rest);
    assert((seq![line] + lines(rest))[0] == line);
    if lines(text).len() > 0 {
        version_follows_the_name(lines(text)[0]);
    }
}

proof fn lemma_version_line(line: Seq<char>)
    requires
        tells_version(line),
    ensures
        is_line(line),
{
    let rest = choose|rest: Seq<char>|
        {
            &&& line == #[trigger] ("NVIM v"@ + rest)
            &&& rest.len() > 0
            &&& forall|k: int| 0 <= k < rest.len() ==> !steers(#[trigger] rest[k])
        };
    reveal_strlit("NVIM v");
    assert forall|k: int| 0 <= k < line.len() implies line[k] != '\n' && line[k] != '\r' by {
        if k >= 6 {
            assert(line[k] == rest[k - 6]);
            assert(!steers(rest[k - 6]));
        }
    }
}

/// The version of an unpacked release is asked of the release itself: its own executable is run,
/// and what it writes is read.
pub proof fn version_is_reported_by_the_release(w: World, installation: Seq<u8>, text: Seq<char>)
    ensures
        ({
            let executable = within(installation, "bin/nvim"@);
            let (ran, after) = w.run(
                Invocation {
                    program: executable,
                    arguments: seq![encode_utf8("--version"@)],
                    report: false,
                },
            );
            let (version, last) = version_reported(w, installation);
            &&& last == after
            &&& wrote(ran, text) ==> version == version_in(text, executable)
            &&& version is Ok ==> complied(ran)
        }),
{
    let executable = within(installation, "bin/nvim"@);
    let none: Seq<Seq<u8>> = seq![];
    assert(none.push(encode_utf8("--version"@)) =~= seq![encode_utf8("--version"@)]);
    let (ran, after) = w.run(
        Invocation {
            program: executable,
            arguments: seq![encode_utf8("--version"@)],
            report: false,
        },
    );
    if wrote(ran, text) {
        lemma_decoded(ran->Ok_0.stdout, text);
    }
}

/// An unpacked archive holds a release exactly if it holds nothing but one directory with the right
/// name, in which there is an executable Neovim.
pub proof fn archive_holds_one_directory(w: World, extraction: Seq<u8>, found: Seq<u8>)
    ensures
        ({
            let root = within(extraction, "nvim-linux-x86_64"@);
            extracted_root(w, extraction) == Ok::<Seq<u8>, Seq<char>>(found) <==> {
                &&& w.listing(extraction) matches Names::Names(names) && names.len() == 1
                    && names[0] == encode_utf8("nvim-linux-x86_64"@)
                &&& w.sight(root) matches Sight::Present(Entry::Directory(_))
                &&& w.sight(within(root, "bin/nvim"@)) matches Sight::Present(Entry::File(mode))
                    && mode & 0o111 != 0
                &&& found == root
            }
        }),
{
}

/// A release is unpacked into a new directory, by `tar` alone; what is found there is the release,
/// with the version that it reports. Where each of these succeeds, so does the whole.
pub proof fn release_is_unpacked(w: World, archive: Seq<u8>, extraction: Seq<u8>)
    ensures
        ({
            let (made, w1) = w.attempt(Deed::MakeDirectory(extraction));
            let (unpacked, w2) = w1.run(unpacking_request(archive, extraction));
            let root = extracted_root(w2, extraction);
            let (version, w3) = version_reported(w2, root->Ok_0);
            let (staged, after) = release_staged(w, archive, extraction);
            &&& staged is Ok <==> made is Ok && complied(unpacked) && root is Ok && version is Ok
            &&& staged is Ok ==> after == w3 && staged->Ok_0 == (root->Ok_0, version->Ok_0)
        }),
{
    reveal(release_staged);
    helpers_are_asked(archive, extraction);
}

/// No release is put in its place that was not downloaded as it was offered, checked, unpacked and
/// described: what comes back is what its description says.
pub proof fn added_release_was_checked(
    w: World,
    paths: Places,
    setting: Setting,
    channel: Channel,
    offer: Offer,
    staging: Seq<u8>,
)
    ensures
        ({
            let archive = within(staging, "nvim-linux-x86_64.tar.gz.part"@);
            let (fetched, w1) = archive_fetched(w, setting, offer, archive);
            let (staged, w2) = release_staged(w1, archive, within(staging, "extracted"@));
            let (added, after) = release_added(w, paths, setting, channel, offer, staging);
            added matches Ok(record) ==> {
                &&& fetched is Ok
                &&& staged matches Ok((root, version)) && record.version == version && {
                    let place = paths.install_of(channel, offer.id);
                    let (published, last) = release_published(w2, paths, root, place, record);
                    published is Ok && last == after
                }
                &&& record.channel == channel
                &&& record.release == offer.id
                &&& record.sha256 == offer.sha256
                &&& record.asset == "nvim-linux-x86_64.tar.gz"@
            }
        }),
{
    reveal(release_added);
    reveal_strlit("nvim-linux-x86_64.tar.gz");
    reveal_strlit(".part");
    reveal_strlit("nvim-linux-x86_64.tar.gz.part");
    assert("nvim-linux-x86_64.tar.gz"@ + ".part"@ =~= "nvim-linux-x86_64.tar.gz.part"@);
}

/// What is in the place of an offered release is taken only if it is that release, with that
/// digest; another one there is left alone and refused.
pub proof fn place_of_a_release_is_not_overwritten(
    w: World,
    paths: Places,
    setting: Setting,
    channel: Channel,
    offer: Offer,
    staging: Seq<u8>,
)
    ensures
        ({
            let place = paths.install_of(channel, offer.id);
            let (obtained, after) = release_obtained(w, paths, setting, channel, offer, staging);
            &&& w.sight(place) is Present ==> after == w && (obtained matches Ok(record)
                ==> installation_at(w, paths, place, Some(channel)) == Ok::<Record, Seq<char>>(
                record,
            ) && record.release == offer.id && record.sha256 == offer.sha256)
            &&& w.sight(place) is Present ==> (installation_at(w, paths, place, Some(channel))
                matches Ok(record) ==> (record.release == offer.id && record.sha256 == offer.sha256
                ==> obtained is Ok))
            &&& w.sight(place) is Absent ==> (obtained, after) == release_added(
                w,
                paths,
                setting,
                channel,
                offer,
                staging,
            )
        }),
{
    reveal(release_obtained);
}

/// A release that is published is described in a file of its own and then moved, as it is, from
/// where it was unpacked to its place.
pub proof fn release_is_moved_to_its_place(
    w: World,
    paths: Places,
    root: Seq<u8>,
    place: Seq<u8>,
    record: Record,
    inner: Seq<u8>,
)
    requires
        release_published(w, paths, root, place, record).0 is Ok,
        describable(record),
        !reaches(root, place),
        !reaches(place, root),
        inner.len() == 0 || inner[0] == 47,
    ensures
        ({
            let after = release_published(w, paths, root, place, record).1;
            let file = within(root, ".nv-metadata"@);
            &&& root + inner != file ==> at(after.nodes, place + inner) == at(w.nodes, root + inner)
            &&& root + inner == file ==> (at(after.nodes, place + inner) matches Some(
                Node::File { contents, .. },
            ) && exists|text: Seq<char>|
                contents == #[trigger] encode_utf8(text) && lines(text) == description_lines(
                    record,
                ))
        }),
{
    reveal(release_published);
    let file = within(root, ".nv-metadata"@);
    let text = record_text(record);
    let write = Deed::Write(file, text);
    description_has_five_lines(record);
    lemma_created_file(w, file, root + inner);
    let w1 = w.create(file).1;
    lemma_written(w1, file, text);
    if root + inner != file {
        lemma_done(w1, write, root + inner);
    }
    let w2 = w1.attempt(write).1;
    lemma_stored(w2, Deed::Flush(file));
    let w3 = w2.attempt(Deed::Flush(file)).1;
    lemma_stored(w3, Deed::SyncFile(file));
    let w4 = w3.attempt(Deed::SyncFile(file)).1;
    lemma_stored(w4, Deed::SyncDirectory(root));
    let w5 = synced(w4, root).1;
    let w6 = w5.attempt(Deed::Rename(root, place)).1;
    lemma_stored(w6, Deed::SyncDirectory(paths.installs));
    assert(w6.nodes == moved(w5.nodes, root, place)) by {
        reveal(World::attempt);
    }
    assert(reaches(place, place + inner)) by {
        if inner.len() > 0 {
            assert((place + inner).take(place.len() as int) =~= place);
            assert((place + inner)[place.len() as int] == inner[0]);
        } else {
            assert(place + inner =~= place);
        }
    }
    assert((place + inner).skip(place.len() as int) =~= inner);
}

} // verus!
