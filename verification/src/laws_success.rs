//! What succeeds on a calm machine whose programs do their work.

use vstd::prelude::*;
use vstd::utf8::*;

use crate::calm::{calm, lemma_calm_attempt, lemma_calm_create, lemma_calm_sight};
use crate::channel::Channel;
use crate::disk::{at, lemma_created_file, lemma_done, lemma_renamed, lemma_stored, lemma_written};
use crate::frames::{lemma_inside, lemma_reaches_on};
use crate::host::{reaches, Deed, Node, World};
use crate::install::release_published;
use crate::installation::installation_at;
use crate::layout::synced;
use crate::locate::{
    ascii, is_place, lemma_apart, lemma_ascii, lemma_below, lemma_draft, lemma_names, lemma_places,
    lemma_within,
};
use crate::metadata::{install_name_read_back, metadata_read_back, record_text, Record};
use crate::path::absolute;
use crate::paths::{install_name, places_below, within};
use crate::release::is_release_id;
use crate::separation::lemma_install_place;
use crate::staging::metadata_written;

verus! {

/// Whether nothing is at `path`, nor below it.
pub open spec fn vacant(nodes: Map<Seq<u8>, Node>, path: Seq<u8>) -> bool {
    forall|inner: Seq<u8>| #[trigger] nodes.contains_key(inner) ==> !reaches(path, inner)
}

/// Whether `root` holds a Neovim that has not been described yet.
pub open spec fn unpacked(nodes: Map<Seq<u8>, Node>, root: Seq<u8>) -> bool {
    &&& at(nodes, root) matches Some(node) && node is Directory
    &&& at(nodes, within(root, "bin/nvim"@)) matches Some(Node::File { mode, .. }) && mode & 0o111
        != 0
    &&& at(nodes, within(root, ".nv-metadata"@)) is None
}

/// On a calm machine the description of a release is written where there is none.
proof fn lemma_described(w: World, path: Seq<u8>, record: Record)
    requires
        calm(w.outside),
        at(w.nodes, path) is None,
    ensures
        ({
            let (done, after) = metadata_written(w, path, record);
            &&& done is Ok
            &&& after.outside == w.outside
            &&& at(after.nodes, path) matches Some(Node::File { contents, .. }) && contents
                == encode_utf8(record_text(record))
            &&& forall|other: Seq<u8>|
                other != path ==> #[trigger] at(after.nodes, other) == at(w.nodes, other)
        }),
{
    let text = record_text(record);
    let write = Deed::Write(path, text);
    let after = metadata_written(w, path, record).1;
    lemma_calm_create(w, path);
    lemma_created_file(w, path, path);
    let w1 = w.create(path).1;
    lemma_calm_attempt(w1, write);
    lemma_written(w1, path, text);
    let w2 = w1.attempt(write).1;
    lemma_calm_attempt(w2, Deed::Flush(path));
    lemma_stored(w2, Deed::Flush(path));
    let w3 = w2.attempt(Deed::Flush(path)).1;
    lemma_calm_attempt(w3, Deed::SyncFile(path));
    lemma_stored(w3, Deed::SyncFile(path));
    assert forall|other: Seq<u8>| other != path implies #[trigger] at(after.nodes, other) == at(
        w.nodes,
        other,
    ) by {
        lemma_created_file(w, path, other);
        lemma_done(w1, write, other);
    }
}

/// What is in the directory for staging is not in the directory of releases.
proof fn lemma_staged_apart(home: Seq<u8>, path: Seq<u8>)
    requires
        absolute(home),
        reaches(places_below(home).staging, path),
    ensures
        !reaches(places_below(home).installs, path),
{
    let paths = places_below(home);
    let n = paths.state.len() as int + 1;
    lemma_places(home);
    lemma_names();
    reveal_strlit("installs");
    reveal_strlit("staging");
    assert(ascii("installs"@)[0] == 'i' as u8);
    assert(ascii("staging"@)[0] == 's' as u8);
    assert(paths.installs[n] == 'i' as u8);
    assert(paths.staging[n] == 's' as u8);
    assert(path[n] == path.take(paths.staging.len() as int)[n]);
    lemma_apart(paths.installs, path, n);
}

/// A release that is described and moved to its place on a calm machine is there, and what is read
/// back of its description is what was written. Nothing else has changed.
pub proof fn published_release_is_read_back(
    w: World,
    home: Seq<u8>,
    root: Seq<u8>,
    record: Record,
)
    requires
        absolute(home),
        calm(w.outside),
        is_place(root),
        reaches(places_below(home).staging, root),
        unpacked(w.nodes, root),
        record.valid(),
        vacant(w.nodes, places_below(home).install_of(record.channel, record.release)),
    ensures
        ({
            let paths = places_below(home);
            let place = paths.install_of(record.channel, record.release);
            let (done, after) = release_published(w, paths, root, place, record);
            &&& done is Ok
            &&& after.outside == w.outside
            &&& installation_at(after, paths, place, Some(record.channel)) == Ok::<
                Record,
                Seq<char>,
            >(record)
            &&& forall|path: Seq<u8>|
                !reaches(root, path) && !reaches(place, path) ==> #[trigger] at(after.nodes, path)
                    == at(w.nodes, path)
        }),
{
    reveal(release_published);
    let paths = places_below(home);
    let channel = record.channel;
    let place = paths.install_of(channel, record.release);
    let metadata = within(root, ".nv-metadata"@);
    let after = release_published(w, paths, root, place, record).1;
    reveal_strlit(".nv-metadata");
    reveal_strlit("bin/nvim");
    lemma_install_place(home, channel, record.release);
    lemma_within(root, ".nv-metadata"@);
    lemma_within(root, "bin/nvim"@);
    lemma_inside(paths.staging, root, ".nv-metadata"@);
    lemma_staged_apart(home, root);
    lemma_staged_apart(home, metadata);
    lemma_described(w, metadata, record);
    let w1 = metadata_written(w, metadata, record).1;
    lemma_calm_attempt(w1, Deed::SyncDirectory(root));
    lemma_stored(w1, Deed::SyncDirectory(root));
    let w2 = synced(w1, root).1;
    let deed = Deed::Rename(root, place);
    assert(metadata.take(root.len() as int) =~= root);
    assert(reaches(root, metadata) && metadata != root);
    assert(at(w1.nodes, root) == at(w.nodes, root));
    if reaches(place, metadata) {
        lemma_reaches_on(paths.installs, place, metadata);
    }
    if reaches(place, root) {
        lemma_reaches_on(paths.installs, place, root);
    }
    assert forall|inner: Seq<u8>| w2.nodes.contains_key(inner) implies !#[trigger] reaches(
        place,
        inner,
    ) by {
        if inner != metadata {
            assert(at(w1.nodes, inner) == at(w.nodes, inner));
            assert(w.nodes.contains_key(inner));
        }
    }
    assert(reaches(place, place));
    assert(w2.nodes.contains_key(root));
    assert(!w2.nodes.contains_key(place));
    assert(w2.permits(deed));
    lemma_calm_attempt(w2, deed);
    lemma_renamed(w2, root, place);
    let w3 = w2.attempt(deed).1;
    lemma_calm_attempt(w3, Deed::SyncDirectory(paths.installs));
    lemma_stored(w3, Deed::SyncDirectory(paths.installs));
    assert forall|path: Seq<u8>| !reaches(root, path) && !reaches(place, path) implies #[trigger] at(
        after.nodes,
        path,
    ) == at(w.nodes, path) by {
        lemma_done(w2, deed, path);
        assert(at(w1.nodes, path) == at(w.nodes, path));
    }
    lemma_moved(w2, home, root, channel, record.release, ".nv-metadata"@);
    lemma_moved(w2, home, root, channel, record.release, "bin/nvim"@);
    assert(at(w1.nodes, within(root, "bin/nvim"@)) == at(w.nodes, within(root, "bin/nvim"@))) by {
        lemma_within(root, "bin/nvim"@);
        assert(within(root, "bin/nvim"@).len() != metadata.len());
    }
    lemma_read_back(after, home, record);
}

/// What is in a directory moves with it.
proof fn lemma_moved(
    w: World,
    home: Seq<u8>,
    root: Seq<u8>,
    channel: Channel,
    release: Seq<char>,
    text: Seq<char>,
)
    requires
        absolute(home),
        is_release_id(release),
        is_place(root),
        is_ascii_chars(text),
        text.len() > 0,
        text[0] != '/',
        w.attempt(Deed::Rename(root, places_below(home).install_of(channel, release))).0 is Ok,
    ensures
        ({
            let place = places_below(home).install_of(channel, release);
            at(w.attempt(Deed::Rename(root, place)).1.nodes, within(place, text)) == at(
                w.nodes,
                within(root, text),
            )
        }),
{
    reveal(World::attempt);
    let paths = places_below(home);
    let place = paths.install_of(channel, release);
    lemma_places(home);
    lemma_install_place(home, channel, release);
    lemma_draft(paths.installs, install_name(channel, release));
    lemma_within(place, text);
    lemma_within(root, text);
    let path = within(place, text);
    assert(path.take(place.len() as int) =~= place);
    assert(root + path.skip(place.len() as int) =~= within(root, text));
}

/// A directory with a described Neovim, under the name of its release, is read as that release.
proof fn lemma_read_back(w: World, home: Seq<u8>, record: Record)
    requires
        absolute(home),
        calm(w.outside),
        record.valid(),
        ({
            let place = places_below(home).install_of(record.channel, record.release);
            &&& at(w.nodes, place) matches Some(node) && node is Directory
            &&& at(w.nodes, within(place, "bin/nvim"@)) matches Some(Node::File { mode, .. })
                && mode & 0o111 != 0
            &&& at(w.nodes, within(place, ".nv-metadata"@)) matches Some(Node::File { contents, .. })
                && contents == encode_utf8(record_text(record))
        }),
    ensures
        installation_at(
            w,
            places_below(home),
            places_below(home).install_of(record.channel, record.release),
            Some(record.channel),
        ) == Ok::<Record, Seq<char>>(record),
{
    reveal(installation_at);
    let paths = places_below(home);
    let channel = record.channel;
    let name = install_name(channel, record.release);
    let place = paths.install_of(channel, record.release);
    let metadata = within(place, ".nv-metadata"@);
    lemma_places(home);
    lemma_install_place(home, channel, record.release);
    lemma_below(paths.installs, name);
    lemma_ascii(name);
    install_name_read_back(channel, record.release);
    encode_utf8_valid_utf8(name);
    encode_utf8_decode_utf8(name);
    lemma_calm_sight(w, place);
    lemma_calm_sight(w, within(place, "bin/nvim"@));
    let text = record_text(record);
    assert(w.text(metadata) == Ok::<Seq<char>, Seq<char>>(text)) by {
        reveal(World::text);
        assert((w.outside.fault)(w.moment, w.nodes, Deed::ReadText(metadata)) is None);
        encode_utf8_valid_utf8(text);
        encode_utf8_decode_utf8(text);
    }
    metadata_read_back(record, metadata);
}

} // verus!
