//! How the places that nv manages lie to each other.

use vstd::prelude::*;
use vstd::utf8::*;

use crate::channel::Channel;
use crate::disk::no_slash;
use crate::encoding::decoded;
use crate::host::reaches;
use crate::installation::channel_target;
use crate::metadata::{install_named, install_named_only};
use crate::path::{
    absolute, inner_pieces, last_cut, last_name, last_part, lemma_last_cut, lies_in, piece, pieces,
    shortened, sibling, DOT, Piece, SLASH,
};
use crate::paths::{link_target, places_below, within};
use crate::pointers::{link_draft, link_name};
use crate::text::{find, is_digit, lemma_find, lemma_find_bounds};
use crate::transaction::names_release_of;

verus! {

/// The bytes of a text in ASCII.
pub open spec fn ascii(text: Seq<char>) -> Seq<u8> {
    text.map_values(|c: char| c as u8)
}

/// A text in ASCII is encoded byte by byte.
pub proof fn lemma_ascii(text: Seq<char>)
    requires
        is_ascii_chars(text),
    ensures
        encode_utf8(text) == ascii(text),
        decoded(ascii(text)) == Ok::<Seq<char>, Seq<char>>(text),
{
    is_ascii_chars_encode_utf8(text);
    assert(encode_utf8(text) =~= ascii(text));
    encode_utf8_valid_utf8(text);
    encode_utf8_decode_utf8(text);
}

/// The path of what has the name `text` in the directory `base`.
pub open spec fn below(base: Seq<u8>, text: Seq<char>) -> Seq<u8> {
    base.push(SLASH) + ascii(text)
}

/// Whether a path can be continued by a slash and a name.
pub open spec fn continuable(path: Seq<u8>) -> bool {
    path.len() > 0 && path.last() != SLASH
}

/// Whether `text` is a name in ASCII: no slash is in it, and it is neither empty nor `.` or `..`.
pub open spec fn is_name(text: Seq<char>) -> bool {
    &&& is_ascii_chars(text)
    &&& text.len() > 0
    &&& forall|k: int| 0 <= k < text.len() ==> #[trigger] text[k] != '/'
    &&& text != seq!['.']
    &&& text != seq!['.', '.']
}

/// A name seen from a directory is the path below the directory.
pub proof fn lemma_within(base: Seq<u8>, text: Seq<char>)
    requires
        continuable(base),
        is_ascii_chars(text),
        text.len() > 0,
        text[0] != '/',
    ensures
        within(base, text) == below(base, text),
        below(base, text).len() == base.len() + 1 + text.len(),
        below(base, text)[base.len() as int] == SLASH,
        forall|k: int| 0 <= k < base.len() ==> #[trigger] below(base, text)[k] == base[k],
        forall|k: int|
            0 <= k < text.len() ==> below(base, text)[base.len() + 1 + k] == #[trigger] text[k] as u8,
        text.last() != '/' ==> continuable(below(base, text)),
{
    lemma_ascii(text);
    let path = below(base, text);
    assert(ascii(text)[0] == text[0] as u8);
    assert(text[0] as u8 != SLASH);
    assert(path.last() == text.last() as u8);
    assert forall|k: int| 0 <= k < text.len() implies path[base.len() + 1 + k] == #[trigger] text[k] as u8 by {
        assert(ascii(text)[k] == text[k] as u8);
    }
}

/// A slash separates the components before it from those behind it.
pub proof fn lemma_pieces_join(left: Seq<u8>, right: Seq<u8>)
    ensures
        inner_pieces(left.push(SLASH) + right) == inner_pieces(left) + inner_pieces(right),
    decreases left.len(),
{
    let all = left.push(SLASH) + right;
    let end = find(left, SLASH) as int;
    lemma_find_bounds(left, SLASH);
    if end < left.len() {
        assert forall|k: int| 0 <= k < end implies all[k] != SLASH by {
            assert(all[k] == left[k]);
        }
        assert(all[end] == left[end]);
        lemma_find(all, SLASH, end);
        assert(all.take(end) =~= left.take(end));
        assert(all.skip(end + 1) =~= left.skip(end + 1).push(SLASH) + right);
        lemma_pieces_join(left.skip(end + 1), right);
        assert(piece(left.take(end)) + (inner_pieces(left.skip(end + 1)) + inner_pieces(right))
            =~= (piece(left.take(end)) + inner_pieces(left.skip(end + 1))) + inner_pieces(right));
    } else {
        assert forall|k: int| 0 <= k < left.len() implies all[k] != SLASH by {
            assert(all[k] == left[k]);
        }
        assert(all[left.len() as int] == SLASH);
        lemma_find(all, SLASH, left.len() as int);
        assert(all.take(left.len() as int) =~= left);
        assert(all.skip(left.len() as int + 1) =~= right);
    }
}

/// A name is one component.
pub proof fn lemma_name_piece(text: Seq<char>)
    requires
        is_name(text),
    ensures
        inner_pieces(ascii(text)) == seq![Piece::Normal(ascii(text))],
{
    let bytes = ascii(text);
    assert forall|k: int| 0 <= k < bytes.len() implies bytes[k] != SLASH by {
        assert(bytes[k] == text[k] as u8);
        assert(text[k] != '/');
    }
    lemma_find(bytes, SLASH, bytes.len() as int);
    if bytes == seq![DOT] {
        assert(bytes[0] == text[0] as u8);
        assert(text =~= seq!['.']);
    }
    if bytes == seq![DOT, DOT] {
        assert(bytes[0] == text[0] as u8 && bytes[1] == text[1] as u8);
        assert(text =~= seq!['.', '.']);
    }
}

/// What is below an absolute directory lies in it, under its own name.
pub proof fn lemma_below(base: Seq<u8>, text: Seq<char>)
    requires
        absolute(base),
        continuable(base),
        is_name(text),
    ensures
        pieces(below(base, text)) == pieces(base).push(Piece::Normal(ascii(text))),
        absolute(below(base, text)),
        lies_in(below(base, text), base),
        last_name(below(base, text)) == Some(ascii(text)),
{
    let path = below(base, text);
    assert(path[0] == base[0]);
    lemma_pieces_join(base, ascii(text));
    lemma_name_piece(text);
    assert(pieces(path) =~= pieces(base).push(Piece::Normal(ascii(text))));
    assert(pieces(path).drop_last() =~= pieces(base));
}

proof fn lemma_cut(base: Seq<u8>, name: Seq<u8>)
    requires
        base.len() >= 1,
        forall|k: int| 0 <= k < name.len() ==> #[trigger] name[k] != SLASH,
    ensures
        last_cut(base.push(SLASH) + name, 1) == base.len(),
    decreases name.len(),
{
    let path = base.push(SLASH) + name;
    if name.len() > 0 {
        assert(path.last() == name.last());
        assert(path.drop_last() =~= base.push(SLASH) + name.drop_last());
        lemma_cut(base, name.drop_last());
    } else {
        assert(path =~= base.push(SLASH));
    }
}

/// A place has nothing behind its last component.
proof fn lemma_place_is_short(path: Seq<u8>)
    requires
        is_place(path),
    ensures
        shortened(path, 1) == path,
{
    lemma_last_cut(path, 1);
    let part = last_part(path, 1);
    let cut = last_cut(path, 1) as int;
    assert(part.len() > 0);
    if part == seq![DOT] {
        assert(part[0] == path.last());
        if path[cut] == SLASH {
            assert(path.len() == cut + 2);
        } else {
            assert(path.len() == 2);
        }
    }
}

/// The sibling of what is in a directory is in the same directory.
pub proof fn lemma_sibling(base: Seq<u8>, text: Seq<char>, other: Seq<char>)
    requires
        is_place(base),
        is_name(text),
        is_name(other),
    ensures
        sibling(below(base, text), encode_utf8(other)) == below(base, other),
{
    let bytes = ascii(text);
    let path = below(base, text);
    assert forall|k: int| 0 <= k < bytes.len() implies #[trigger] bytes[k] != SLASH by {
        assert(bytes[k] == text[k] as u8);
        assert(text[k] != '/');
    }
    lemma_child(base, text);
    lemma_child(base, other);
    lemma_below(base, text);
    lemma_cut(base, bytes);
    lemma_place_is_short(path);
    lemma_place_is_short(base);
    assert(path.take(base.len() as int) =~= base);
}

/// Paths that differ at some byte are not in one another.
pub proof fn lemma_apart(left: Seq<u8>, right: Seq<u8>, at: int)
    requires
        0 <= at < left.len(),
        at < right.len(),
        left[at] != right[at],
    ensures
        left != right,
        !reaches(left, right),
        !reaches(right, left),
{
    if left.len() <= right.len() {
        assert(right.take(left.len() as int)[at] == right[at]);
    }
    if right.len() <= left.len() {
        assert(left.take(right.len() as int)[at] == left[at]);
    }
}

/// Different names in a directory are not in one another.
pub proof fn lemma_siblings_apart(base: Seq<u8>, left: Seq<char>, right: Seq<char>)
    requires
        is_name(left),
        is_name(right),
        left != right,
    ensures
        below(base, left) != below(base, right),
        !reaches(below(base, left), below(base, right)),
        !reaches(below(base, right), below(base, left)),
{
    lemma_not_in(base, left, right);
    lemma_not_in(base, right, left);
}

proof fn lemma_not_in(base: Seq<u8>, left: Seq<char>, right: Seq<char>)
    requires
        is_name(left),
        is_name(right),
        left != right,
    ensures
        !reaches(below(base, left), below(base, right)),
{
    let top = below(base, left);
    let path = below(base, right);
    if path == top {
        assert(left.len() == right.len());
        assert forall|k: int| 0 <= k < left.len() implies left[k] == right[k] by {
            assert(top[base.len() + 1 + k] == ascii(left)[k]);
            assert(path[base.len() + 1 + k] == ascii(right)[k]);
        }
        assert(left =~= right);
    } else if reaches(top, path) {
        let k = left.len() as int;
        assert(path[base.len() + 1 + k] == ascii(right)[k]);
        assert(right[k] != '/');
    }
}

/// Directories with different names have nothing in common.
pub proof fn lemma_distinct_trees(base: Seq<u8>, left: Seq<u8>, right: Seq<u8>, path: Seq<u8>)
    requires
        no_slash(left),
        no_slash(right),
        left != right,
        reaches(base.push(SLASH) + left, path),
    ensures
        !reaches(base.push(SLASH) + right, path),
{
    let one = base.push(SLASH) + left;
    let other = base.push(SLASH) + right;
    if reaches(other, path) {
        assert(path.take(one.len() as int) =~= one);
        assert(path.take(other.len() as int) =~= other);
        if left.len() < right.len() {
            assert(path[one.len() as int] == other[one.len() as int]);
            assert(other[one.len() as int] == right[left.len() as int]);
        } else if right.len() < left.len() {
            assert(path[other.len() as int] == one[other.len() as int]);
            assert(one[other.len() as int] == left[right.len() as int]);
        } else {
            assert forall|k: int| 0 <= k < left.len() implies left[k] == right[k] by {
                assert(one[base.len() + 1 + k] == left[k]);
                assert(other[base.len() + 1 + k] == right[k]);
                assert(path.take(one.len() as int)[base.len() + 1 + k] == path.take(
                    other.len() as int,
                )[base.len() + 1 + k]);
            }
            assert(left =~= right);
        }
    }
}

/// Different names in a directory have nothing in common.
pub proof fn lemma_names_apart(base: Seq<u8>, left: Seq<char>, right: Seq<char>, path: Seq<u8>)
    requires
        is_name(left),
        is_name(right),
        left != right,
        reaches(below(base, left), path),
    ensures
        !reaches(below(base, right), path),
{
    let one = ascii(left);
    let other = ascii(right);
    assert forall|k: int| 0 <= k < one.len() implies #[trigger] one[k] != SLASH by {
        assert(one[k] == left[k] as u8);
        assert(left[k] != '/');
    }
    assert forall|k: int| 0 <= k < other.len() implies #[trigger] other[k] != SLASH by {
        assert(other[k] == right[k] as u8);
        assert(right[k] != '/');
    }
    lemma_ascii(left);
    lemma_ascii(right);
    lemma_distinct_trees(base, one, other, path);
}

/// The home directory with a slash at its end.
pub open spec fn root_of(home: Seq<u8>) -> Seq<u8> {
    if home.last() == SLASH {
        home
    } else {
        home.push(SLASH)
    }
}

/// Whether a path is absolute and ends in a component other than `.`.
pub open spec fn is_place(path: Seq<u8>) -> bool {
    absolute(path) && continuable(path) && !(path.last() == DOT && path[path.len() - 2] == SLASH)
}

proof fn lemma_from_home(home: Seq<u8>, text: Seq<char>)
    requires
        absolute(home),
        is_ascii_chars(text),
        text.len() > 0,
        text[0] != '/',
        text.last() != '/',
        text.last() != '.',
    ensures
        within(home, text) == root_of(home) + ascii(text),
        is_place(within(home, text)),
{
    lemma_ascii(text);
    assert(ascii(text)[0] == text[0] as u8);
    assert(within(home, text) =~= root_of(home) + ascii(text));
    assert(within(home, text).last() == text.last() as u8);
    assert(within(home, text)[0] == home[0]);
}

proof fn lemma_child(base: Seq<u8>, text: Seq<char>)
    requires
        is_place(base),
        is_name(text),
    ensures
        within(base, text) == below(base, text),
        is_place(below(base, text)),
{
    assert(text[0] != '/' && text.last() != '/');
    lemma_within(base, text);
    let path = below(base, text);
    assert(path[0] == base[0]);
    assert(path.last() == text.last() as u8);
    if text.len() > 1 {
        assert(path[path.len() - 2] == text[text.len() - 2] as u8);
        assert(text[text.len() - 2] != '/');
    } else {
        assert(text != seq!['.']);
        assert(text =~= seq![text[0]]);
    }
}

/// The places that nv manages, each below the one that it is in.
pub proof fn lemma_places(home: Seq<u8>)
    requires
        absolute(home),
    ensures
        ({
            let paths = places_below(home);
            &&& is_place(paths.state)
            &&& is_place(paths.local_bin)
            &&& paths.installs == below(paths.state, "installs"@) && is_place(paths.installs)
            &&& paths.channels == below(paths.state, "channels"@) && is_place(paths.channels)
            &&& paths.staging == below(paths.state, "staging"@) && is_place(paths.staging)
            &&& paths.active == below(paths.state, "active"@) && is_place(paths.active)
            &&& paths.lock == below(paths.state, "operation.lock"@) && is_place(paths.lock)
            &&& paths.transaction == below(paths.state, "pointer.transaction"@) && is_place(
                paths.transaction,
            )
            &&& paths.nvim_link == below(paths.local_bin, "nvim"@) && is_place(paths.nvim_link)
            &&& paths.state == root_of(home) + ascii(".local/share/nv"@)
            &&& paths.local_bin == root_of(home) + ascii(".local/bin"@)
        }),
{
    lemma_names();
    let paths = places_below(home);
    reveal_strlit(".local/share/nv");
    reveal_strlit(".local/bin");
    lemma_from_home(home, ".local/share/nv"@);
    lemma_from_home(home, ".local/bin"@);
    lemma_child(paths.state, "installs"@);
    lemma_child(paths.state, "channels"@);
    lemma_child(paths.state, "staging"@);
    lemma_child(paths.state, "active"@);
    lemma_child(paths.state, "operation.lock"@);
    lemma_child(paths.state, "pointer.transaction"@);
    lemma_child(paths.local_bin, "nvim"@);
}

/// The words of which the places are made are names.
pub proof fn lemma_names()
    ensures
        is_name("installs"@),
        is_name("channels"@),
        is_name("staging"@),
        is_name("active"@),
        is_name("operation.lock"@),
        is_name("pointer.transaction"@),
        is_name(".pointer.transaction.nv-new"@),
        is_name("nvim"@),
        is_name("current"@),
        is_name("previous"@),
        is_name("stable"@),
        is_name("nightly"@),
        is_ascii_chars("."@),
        is_ascii_chars(".nv-new"@),
{
    reveal_strlit("installs");
    reveal_strlit("channels");
    reveal_strlit("staging");
    reveal_strlit("active");
    reveal_strlit("operation.lock");
    reveal_strlit("pointer.transaction");
    reveal_strlit(".pointer.transaction.nv-new");
    reveal_strlit("nvim");
    reveal_strlit("current");
    reveal_strlit("previous");
    reveal_strlit("stable");
    reveal_strlit("nightly");
    reveal_strlit(".");
    reveal_strlit(".nv-new");
    assert("installs"@.len() > 2 && "channels"@.len() > 2 && "staging"@.len() > 2);
    assert("active"@.len() > 2 && "operation.lock"@.len() > 2 && "nvim"@.len() > 2);
    assert("pointer.transaction"@.len() > 2 && ".pointer.transaction.nv-new"@.len() > 2);
    assert("current"@.len() > 2 && "previous"@.len() > 2);
    assert("stable"@.len() > 2 && "nightly"@.len() > 2);
}

/// The name under which a link is made before it replaces another one with the name `name`.
pub open spec fn draft_name(name: Seq<char>) -> Seq<char> {
    "."@ + name + ".nv-new"@
}

/// The name of a draft is a name, and another one.
pub proof fn lemma_draft_name(name: Seq<char>)
    requires
        is_name(name),
    ensures
        is_name(draft_name(name)),
        draft_name(name) != name,
        draft_name(name).len() == name.len() + 8,
        draft_name(name)[0] == '.',
{
    reveal_strlit(".");
    reveal_strlit(".nv-new");
    let draft = draft_name(name);
    assert(draft.len() == name.len() + 8);
    assert forall|k: int| 0 <= k < draft.len() implies '\0' <= #[trigger] draft[k] <= '\u{7f}'
        && draft[k] != '/' by {
        if 0 < k < 1 + name.len() {
            assert(draft[k] == name[k - 1]);
        } else if k > 0 {
            assert(draft[k] == ".nv-new"@[k - 1 - name.len()]);
        }
    }
}

/// The draft of a link is beside it.
pub proof fn lemma_draft(base: Seq<u8>, name: Seq<char>)
    requires
        is_place(base),
        is_name(name),
    ensures
        is_name(draft_name(name)),
        is_place(below(base, name)),
        is_place(below(base, draft_name(name))),
        within(base, name) == below(base, name),
        link_name(below(base, name)) == Some(name),
        link_draft(below(base, name), name) == below(base, draft_name(name)),
{
    lemma_draft_name(name);
    let draft = draft_name(name);
    lemma_child(base, name);
    lemma_child(base, draft);
    lemma_below(base, name);
    lemma_ascii(name);
    lemma_sibling(base, name, draft);
}

/// The name of a directory that holds a release is a name.
pub proof fn lemma_release_name(name: Seq<char>, channel: Channel)
    requires
        names_release_of(name, channel),
    ensures
        is_name(name),
        name.last() != '.',
{
    reveal_strlit("stable");
    reveal_strlit("nightly");
    reveal_strlit("-");
    install_named_only(name);
    let release = install_named(name)->Ok_0.1;
    let head = channel.name() + "-"@;
    assert(name =~= head + release);
    assert(name.len() > 2);
    assert(name.last() == release.last() && is_digit(release.last()));
    assert forall|k: int| 0 <= k < name.len() implies '\0' <= #[trigger] name[k] <= '\u{7f}'
        && name[k] != '/' by {
        if k >= head.len() {
            assert(name[k] == release[k - head.len()]);
            assert(is_digit(release[k - head.len()]));
        } else {
            assert(name[k] == head[k]);
        }
    }
}

/// A link that nv makes selects the release that it was made for.
pub proof fn link_selects_its_release(name: Seq<char>, channel: Channel, link: Seq<u8>)
    requires
        names_release_of(name, channel),
    ensures
        channel_target(link_target(name), channel, link) == Ok::<Seq<char>, Seq<char>>(name),
{
    reveal_strlit("../../installs");
    reveal_strlit("..");
    reveal_strlit("installs");
    let base = "../../installs"@;
    let up = seq![DOT, DOT];
    lemma_release_name(name, channel);
    lemma_names();
    lemma_ascii(base);
    lemma_ascii(name);
    lemma_ascii("installs"@);
    lemma_within(ascii(base), name);
    assert(link_target(name) == below(ascii(base), name));
    lemma_pieces_join(ascii(base), ascii(name));
    lemma_name_piece(name);
    let tail = up.push(SLASH) + ascii("installs"@);
    assert(ascii(base) =~= up.push(SLASH) + tail);
    lemma_pieces_join(up, tail);
    lemma_pieces_join(up, ascii("installs"@));
    lemma_name_piece("installs"@);
    lemma_find(up, SLASH, 2);
    assert(inner_pieces(up) =~= seq![Piece::Parent]);
    let parts = pieces(link_target(name));
    assert(link_target(name)[0] == DOT && link_target(name)[1] == DOT);
    assert(parts =~= seq![
        Piece::Parent,
        Piece::Parent,
        Piece::Normal(ascii("installs"@)),
        Piece::Normal(ascii(name)),
    ]);
}

} // verus!
