//! What actions leave as it was on disk.

use vstd::prelude::*;
use vstd::utf8::encode_utf8;

use crate::channel::Channel;
use crate::host::{reaches, Deed, Invocation, Node, Outside, World};
use crate::installation::{channel_target, installation_at, pointer_of};
use crate::metadata::Record;
use crate::path::SLASH;
use crate::paths::{within, Places};
use crate::transaction::names_release_of;

verus! {

/// What is at a path, if anything.
pub open spec fn at(nodes: Map<Seq<u8>, Node>, path: Seq<u8>) -> Option<Node> {
    if nodes.contains_key(path) {
        Some(nodes[path])
    } else {
        None
    }
}

/// Whether one world comes from another and what is at `path` is the same in both.
pub open spec fn kept(before: World, after: World, path: Seq<u8>) -> bool {
    after.outside == before.outside && at(after.nodes, path) == at(before.nodes, path)
}

/// Whether an action is about what is at `path`.
pub open spec fn touches(deed: Deed, path: Seq<u8>) -> bool {
    match deed {
        Deed::CreateNew(place) | Deed::Write(place, _) | Deed::Flush(place) | Deed::SyncFile(place)
        | Deed::MakeDirectory(place) | Deed::Link(_, place) | Deed::RemoveFile(
            place,
        ) => path == place,
        Deed::MakePrivateDirectories(place) => reaches(path, place),
        Deed::Rename(from, to) => reaches(from, path) || reaches(to, path),
        Deed::RemoveTree(place) => reaches(place, path),
        _ => false,
    }
}

/// Whether a path is in the state directory, in that of the executable, or above the latter.
pub open spec fn is_managed(paths: Places, path: Seq<u8>) -> bool {
    reaches(paths.state, path) || reaches(paths.local_bin, path) || reaches(path, paths.local_bin)
}

/// What an action leaves on disk if it fails for a reason that the disk does not show.
pub open spec fn left_by_fault(
    outside: Outside,
    moment: nat,
    nodes: Map<Seq<u8>, Node>,
    deed: Deed,
) -> Map<Seq<u8>, Node> {
    match (outside.fault)(moment, nodes, deed) {
        Some(fault) => fault.nodes,
        None => nodes,
    }
}

/// What a program leaves on disk.
pub open spec fn left_by_program(
    outside: Outside,
    moment: nat,
    nodes: Map<Seq<u8>, Node>,
    invocation: Invocation,
) -> Map<Seq<u8>, Node> {
    (outside.program)(moment, nodes, invocation).1
}

/// Whether there is no slash in a name.
pub open spec fn no_slash(name: Seq<u8>) -> bool {
    forall|k: int| 0 <= k < name.len() ==> #[trigger] name[k] != SLASH
}

/// Whether the machine behaves: programs change nothing of what nv manages outside its staging
/// directory, actions that fail change nothing that they are not about, and directories list names.
pub open spec fn orderly(outside: Outside, paths: Places) -> bool {
    &&& forall|moment: nat, nodes: Map<Seq<u8>, Node>, deed: Deed, path: Seq<u8>|
        !touches(deed, path) ==> #[trigger] at(left_by_fault(outside, moment, nodes, deed), path)
            == at(nodes, path)
    &&& forall|
        moment: nat,
        nodes: Map<Seq<u8>, Node>,
        invocation: Invocation,
        path: Seq<u8>,
    |
        is_managed(paths, path) && !reaches(paths.staging, path) ==> #[trigger] at(
            left_by_program(outside, moment, nodes, invocation),
            path,
        ) == at(nodes, path)
    &&& forall|nodes: Map<Seq<u8>, Node>, directory: Seq<u8>, k: int|
        0 <= k < (outside.order)(nodes, directory).len() ==> no_slash(
            #[trigger] (outside.order)(nodes, directory)[k],
        )
}

/// An action that succeeds changes nothing that it is not about.
pub proof fn lemma_done(w: World, deed: Deed, path: Seq<u8>)
    requires
        w.attempt(deed).0 is Ok,
        !touches(deed, path),
    ensures
        kept(w, w.attempt(deed).1, path),
{
    reveal(World::attempt);
}

/// On a machine that behaves, an action changes nothing that it is not about.
pub proof fn lemma_attempted(w: World, paths: Places, deed: Deed, path: Seq<u8>)
    requires
        orderly(w.outside, paths),
        !touches(deed, path),
    ensures
        kept(w, w.attempt(deed).1, path),
{
    reveal(World::attempt);
    assert(at(left_by_fault(w.outside, w.moment, w.nodes, deed), path) == at(w.nodes, path));
}

/// On a machine that behaves, the creation of a file changes nothing else.
pub proof fn lemma_created(w: World, paths: Places, place: Seq<u8>, path: Seq<u8>)
    requires
        orderly(w.outside, paths),
        path != place,
    ensures
        kept(w, w.create(place).1, path),
{
    reveal(World::create);
    let deed = Deed::CreateNew(place);
    assert(at(left_by_fault(w.outside, w.moment, w.nodes, deed), path) == at(w.nodes, path));
}

/// On a machine that behaves, a program changes nothing outside the staging directory.
pub proof fn lemma_ran(w: World, paths: Places, invocation: Invocation, path: Seq<u8>)
    requires
        orderly(w.outside, paths),
        is_managed(paths, path),
        !reaches(paths.staging, path),
    ensures
        kept(w, w.run(invocation).1, path),
{
    reveal(World::run);
    assert(at(left_by_program(w.outside, w.moment, w.nodes, invocation), path) == at(
        w.nodes,
        path,
    ));
}

/// An action that brings something to disk or to the terminal leaves the disk as it is if it
/// succeeds.
pub proof fn lemma_stored(w: World, deed: Deed)
    requires
        w.attempt(deed).0 is Ok,
        deed is Flush || deed is SyncFile || deed is SyncDirectory || deed is Print || deed is Warn,
    ensures
        w.attempt(deed).1.nodes == w.nodes,
        w.attempt(deed).1.outside == w.outside,
{
    reveal(World::attempt);
}

/// A file that was created is there, and nothing else has changed.
pub proof fn lemma_created_file(w: World, place: Seq<u8>, path: Seq<u8>)
    requires
        w.create(place).0 is Created,
    ensures
        at(w.nodes, place) is None,
        at(w.create(place).1.nodes, place) matches Some(Node::File { contents, .. })
            && contents.len() == 0,
        path != place ==> kept(w, w.create(place).1, path),
        w.create(place).1.outside == w.outside,
{
    reveal(World::create);
}

/// What was written is in the file.
pub proof fn lemma_written(w: World, place: Seq<u8>, text: Seq<char>)
    requires
        w.attempt(Deed::Write(place, text)).0 is Ok,
        at(w.nodes, place) matches Some(Node::File { contents, .. }) && contents.len() == 0,
    ensures
        at(w.attempt(Deed::Write(place, text)).1.nodes, place) matches Some(
            Node::File { contents, .. },
        ) && contents == encode_utf8(text),
        w.attempt(Deed::Write(place, text)).1.outside == w.outside,
{
    reveal(World::attempt);
    let contents = w.nodes[place]->contents;
    assert(contents + encode_utf8(text) =~= encode_utf8(text));
}

/// A link that was made is there.
pub proof fn lemma_linked(w: World, target: Seq<u8>, place: Seq<u8>)
    requires
        w.attempt(Deed::Link(target, place)).0 is Ok,
    ensures
        at(w.attempt(Deed::Link(target, place)).1.nodes, place) == Some(Node::Link { target }),
        w.attempt(Deed::Link(target, place)).1.outside == w.outside,
{
    reveal(World::attempt);
}

/// What was moved is in its new place, and no longer in the old one.
pub proof fn lemma_renamed(w: World, from: Seq<u8>, to: Seq<u8>)
    requires
        w.attempt(Deed::Rename(from, to)).0 is Ok,
    ensures
        at(w.nodes, from) is Some,
        at(w.attempt(Deed::Rename(from, to)).1.nodes, to) == at(w.nodes, from),
        !reaches(to, from) ==> at(w.attempt(Deed::Rename(from, to)).1.nodes, from) is None,
        w.attempt(Deed::Rename(from, to)).1.outside == w.outside,
{
    reveal(World::attempt);
    assert(from + to.skip(to.len() as int) =~= from);
}

/// What was removed is no longer there.
pub proof fn lemma_removed(w: World, place: Seq<u8>)
    requires
        w.attempt(Deed::RemoveFile(place)).0 is Ok,
    ensures
        at(w.attempt(Deed::RemoveFile(place)).1.nodes, place) is None,
        w.attempt(Deed::RemoveFile(place)).1.outside == w.outside,
{
    reveal(World::attempt);
}

/// The directory that a link of a channel selects, if it is a link as nv makes them.
pub open spec fn selection(
    nodes: Map<Seq<u8>, Node>,
    paths: Places,
    channel: Channel,
    which: Seq<char>,
) -> Option<Seq<char>> {
    let link = paths.link_of(channel, which);
    match at(nodes, link) {
        Some(Node::Link { target }) => match channel_target(target, channel, link) {
            Ok(name) => Some(name),
            Err(_) => None,
        },
        _ => None,
    }
}

/// A link of a channel that nv reads selects the release that nv finds there.
pub proof fn lemma_pointer_selects(w: World, paths: Places, channel: Channel, which: Seq<char>)
    ensures
        match pointer_of(w, paths, channel, which) {
            Ok(Some(installed)) => {
                let link = paths.link_of(channel, which);
                &&& selection(w.nodes, paths, channel, which) == Some(installed.name)
                &&& names_release_of(installed.name, channel)
                &&& installed.path == within(paths.installs, installed.name)
                &&& at(w.nodes, link) is Some && at(w.nodes, link)->0 is Link
                &&& installation_at(w, paths, installed.path, Some(channel)) == Ok::<
                    Record,
                    Seq<char>,
                >(installed.record)
            },
            Ok(None) => at(w.nodes, paths.link_of(channel, which)) is None,
            Err(_) => true,
        },
{
    reveal(World::sight);
    reveal(World::target);
    reveal(pointer_of);
}

} // verus!
