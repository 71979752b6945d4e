//! What the components of a path are, and which links lead where nv lets them lead.

use vstd::prelude::*;
use vstd::utf8::*;

use crate::activation::{active_channel, active_target, destination, exposure};
use crate::channel::Channel;
use crate::encoding::lossy_text;
use crate::host::{Deed, Entry, Sight, World};
use crate::installation::state_of;
use crate::laws_refused::is_safe;
use crate::laws_used::{lemma_target_pieces, lemma_targets_apart};
use crate::laws_words::spelling;
use crate::locate::{
    ascii, is_name, is_place, lemma_ascii, lemma_names, lemma_pieces_join, lemma_sibling,
};
use crate::path::{
    has_parent, joined, last_name, lies_in, parent_name, piece, pieces, same_path, shown, sibling,
    Piece,
};
use crate::paths::Places;
use crate::staging::staging_removed;
use crate::text::lemma_find;

verus! {

/// The components of a path are read one by one: what follows a slash is one more component, which
/// is the directory above if it is `..`, and none if it is empty or `.`.
pub proof fn components_are_read_one_by_one(front: Seq<u8>, name: Seq<u8>)
    requires
        front.len() > 0,
        !name.contains(47u8),
    ensures
        ({
            let all = pieces(front + seq![47u8] + name);
            if name.len() == 0 || name == seq![46u8] {
                all == pieces(front)
            } else if name == seq![46u8, 46u8] {
                all == pieces(front).push(Piece::Parent)
            } else {
                all == pieces(front).push(Piece::Normal(name))
            }
        }),
{
    let path = front + seq![47u8] + name;
    assert(path =~= front.push(47u8) + name);
    assert(path[0] == front[0]);
    if front.len() > 1 {
        assert(path[1] == front[1]);
    } else {
        assert(path[1] == 47u8);
    }
    lemma_pieces_join(front, name);
    lemma_no_slash(name);
    lemma_find(name, 47u8, name.len() as int);
    assert(pieces(path) =~= pieces(front) + piece(name));
    if name.len() == 0 || name == seq![46u8] {
        assert(pieces(path) =~= pieces(front));
    }
}

proof fn lemma_no_slash(name: Seq<u8>)
    requires
        !name.contains(47u8),
    ensures
        forall|k: int| 0 <= k < name.len() ==> name[k] != 47u8,
{
    assert forall|k: int| 0 <= k < name.len() implies name[k] != 47u8 by {
        if name[k] == 47u8 {
            assert(name.contains(47u8));
        }
    }
}

/// A path without a slash is one component, or none; one that begins with a slash begins at the
/// root.
pub proof fn first_component_is_read(name: Seq<u8>)
    requires
        !name.contains(47u8),
    ensures
        name.len() == 0 ==> pieces(name).len() == 0,
        name == seq![46u8] ==> pieces(name) == seq![Piece::Current],
        name == seq![46u8, 46u8] ==> pieces(name) == seq![Piece::Parent],
        name.len() > 0 && name != seq![46u8] && name != seq![46u8, 46u8] ==> pieces(name) == seq![
            Piece::Normal(name),
        ],
        name.len() > 0 && name != seq![46u8] && name != seq![46u8, 46u8] ==> pieces(
            seq![47u8] + name,
        ) == seq![Piece::Root, Piece::Normal(name)],
        pieces(seq![47u8]) == seq![Piece::Root],
{
    let none: Seq<u8> = seq![];
    lemma_no_slash(name);
    lemma_find(name, 47u8, name.len() as int);
    lemma_find(none, 47u8, 0);
    lemma_pieces_join(none, name);
    lemma_pieces_join(none, none);
    assert(none.push(47u8) + name =~= seq![47u8] + name);
    assert(none.push(47u8) + none =~= seq![47u8]);
    assert(pieces(seq![47u8] + name) =~= seq![Piece::Root] + piece(name));
    assert(pieces(seq![47u8]) =~= seq![Piece::Root]);
    if name == seq![46u8] {
        assert(pieces(name) =~= seq![Piece::Current]);
    }
    assert(name.len() > 0 ==> name[0] != 47u8);
    if name.len() == 1 && name[0] == 46u8 {
        assert(name =~= seq![46u8]);
    }
}

/// A relative path is continued behind a slash, and an absolute one stands for itself.
pub proof fn paths_are_joined_by_a_slash(base: Seq<u8>, relative: Seq<u8>)
    ensures
        relative.len() > 0 && relative[0] == 47 ==> joined(base, relative) == relative,
        !(relative.len() > 0 && relative[0] == 47) ==> joined(base, relative) == if base.len() == 0
            || base.last() == 47 {
            base + relative
        } else {
            base + seq![47u8] + relative
        },
{
    assert(base.push(47u8) + relative =~= base + seq![47u8] + relative);
}

/// The components of what the link of the channel in use points to.
proof fn lemma_active_components(channel: Channel)
    ensures
        pieces(active_target(channel)) == seq![
            Piece::Normal(encode_utf8("channels"@)),
            Piece::Normal(encode_utf8(spelling(channel))),
            Piece::Normal(encode_utf8("current"@)),
        ],
{
    lemma_names();
    lemma_target_pieces(channel);
    lemma_ascii("channels"@);
    lemma_ascii(spelling(channel));
    lemma_ascii("current"@);
}

/// Whether a link leads to the current release of a channel.
pub open spec fn leads_to_current(target: Seq<u8>, channel: Channel) -> bool {
    pieces(target) == seq![
        Piece::Normal(encode_utf8("channels"@)),
        Piece::Normal(encode_utf8(spelling(channel))),
        Piece::Normal(encode_utf8("current"@)),
    ]
}

/// A channel is in use exactly if the link of the channel in use leads to its current release and
/// the channel has one; none is in use exactly if there is no such link.
pub proof fn channel_in_use_is_read(w: World, paths: Places, channel: Channel)
    ensures
        active_channel(w, paths) == Ok::<Option<Channel>, Seq<char>>(None) <==> w.sight(
            paths.active,
        ) is Absent,
        active_channel(w, paths) == Ok::<Option<Channel>, Seq<char>>(Some(channel)) <==> {
            &&& w.sight(paths.active) == Sight::Present(Entry::Symlink)
            &&& w.target(paths.active) matches Ok(target) && leads_to_current(target, channel)
            &&& state_of(w, paths, channel) matches Ok(selected) && selected.current is Some
        },
{
    lemma_active_components(Channel::Stable);
    lemma_active_components(Channel::Nightly);
    lemma_targets_apart();
    if let Ok(target) = w.target(paths.active) {
        assert(same_path(target, active_target(Channel::Stable)) == leads_to_current(
            target,
            Channel::Stable,
        ));
        assert(same_path(target, active_target(Channel::Nightly)) == leads_to_current(
            target,
            Channel::Nightly,
        ));
    }
}

/// Whether the executable is the link that nv makes.
pub open spec fn is_managed_link(w: World, path: Seq<u8>) -> bool {
    &&& w.sight(path) == Sight::Present(Entry::Symlink)
    &&& w.target(path) matches Ok(target) && pieces(target) == pieces(
        encode_utf8("../share/nv/active/bin/nvim"@),
    )
}

/// The place of the executable is accepted exactly if its directory is missing, or is safe and holds
/// either nothing there or the link that nv makes; and the executable is exposed exactly if that
/// link is there.
pub proof fn executable_is_nothing_or_the_managed_link(w: World, paths: Places)
    ensures
        destination(w, paths) is Ok <==> w.sight(paths.local_bin) is Absent || (is_safe(
            w,
            paths.local_bin,
        ) && (w.sight(paths.nvim_link) is Absent || is_managed_link(w, paths.nvim_link))),
        exposure(w, paths) is Ok <==> is_managed_link(w, paths.nvim_link),
{
}

/// Only what lies in a directory with the name `staging` is cleared as staged.
pub proof fn only_staged_data_is_cleared(w: World, path: Seq<u8>)
    ensures
        parent_name(path) != Some(encode_utf8("staging"@)) ==> staging_removed(w, path).0 is Err
            && staging_removed(w, path).1 == w,
        has_parent(path) && parent_name(path) == Some(encode_utf8("staging"@)) ==> staging_removed(
            w,
            path,
        ).1 == w.attempt(Deed::RemoveTree(path)).1 && (staging_removed(w, path).0 is Ok
            <==> w.attempt(Deed::RemoveTree(path)).0 is Ok),
{
}

/// The name of the directory in which a path lies is its last component but one.
pub proof fn parent_is_the_last_but_one(front: Seq<u8>, parent: Seq<u8>, name: Seq<u8>)
    requires
        front.len() > 0,
        !parent.contains(47u8),
        !name.contains(47u8),
        parent.len() > 0,
        parent != seq![46u8],
        parent != seq![46u8, 46u8],
        name.len() > 0,
        name != seq![46u8],
        name != seq![46u8, 46u8],
    ensures
        ({
            let path = front + seq![47u8] + parent + seq![47u8] + name;
            &&& has_parent(path)
            &&& parent_name(path) == Some(parent)
            &&& last_name(path) == Some(name)
            &&& lies_in(path, front + seq![47u8] + parent)
        }),
{
    let above = front + seq![47u8] + parent;
    let path = above + seq![47u8] + name;
    components_are_read_one_by_one(front, parent);
    components_are_read_one_by_one(above, name);
    assert(pieces(path).drop_last() =~= pieces(above));
}

/// Where the last component of a path is replaced, what stands before it stays.
pub proof fn last_component_is_replaced(base: Seq<u8>, name: Seq<char>, other: Seq<char>)
    requires
        is_place(base),
        is_name(name),
        is_name(other),
    ensures
        sibling(base + seq![47u8] + encode_utf8(name), encode_utf8(other)) == base + seq![47u8]
            + encode_utf8(other),
{
    lemma_sibling(base, name, other);
    lemma_ascii(name);
    lemma_ascii(other);
    assert(base.push(47u8) + ascii(name) =~= base + seq![47u8] + encode_utf8(name));
    assert(base.push(47u8) + ascii(other) =~= base + seq![47u8] + encode_utf8(other));
}

/// A path is shown as the text that its bytes are.
pub proof fn path_is_shown_as_text(path: Seq<u8>)
    ensures
        shown(path) == lossy_text(path),
{
}

} // verus!
