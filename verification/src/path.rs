//! Paths as Unix has them: bytes, cut into components by slashes.

use vstd::prelude::*;
use vstd::utf8::encode_utf8;

use crate::encoding::{copied, decode_lossy, encode, lossy_text, same_bytes};
use crate::text::{find, lemma_find};

verus! {

/// The byte between the components of a path.
pub const SLASH: u8 = 47;

/// The byte of which `.` and `..` are made.
pub const DOT: u8 = 46;

/// A path of the host.
#[derive(Debug)]
pub struct UnixPath {
    pub bytes: Vec<u8>,
}

impl View for UnixPath {
    type V = Seq<u8>;

    open spec fn view(&self) -> Seq<u8> {
        self.bytes@
    }
}

impl DeepView for UnixPath {
    type V = Seq<u8>;

    open spec fn deep_view(&self) -> Seq<u8> {
        self.bytes@
    }
}

/// A component of a path, as a caller sees it.
#[derive(Debug)]
pub enum Component {
    Root,
    Current,
    Parent,
    Normal(Vec<u8>),
}

/// A component of a path.
pub enum Piece {
    Root,
    Current,
    Parent,
    Normal(Seq<u8>),
}

impl View for Component {
    type V = Piece;

    open spec fn view(&self) -> Piece {
        match self {
            Component::Root => Piece::Root,
            Component::Current => Piece::Current,
            Component::Parent => Piece::Parent,
            Component::Normal(name) => Piece::Normal(name@),
        }
    }
}

/// The components in a list, as pieces.
pub open spec fn pieces_of(list: Seq<Component>) -> Seq<Piece> {
    list.map_values(|component: Component| component@)
}

/// Whether a path is absolute.
pub open spec fn absolute(path: Seq<u8>) -> bool {
    path.len() > 0 && path[0] == SLASH
}

/// `relative` seen from `base`; an absolute path stands for itself.
pub open spec fn joined(base: Seq<u8>, relative: Seq<u8>) -> Seq<u8> {
    if absolute(relative) {
        relative
    } else if base.len() == 0 || base.last() == SLASH {
        base + relative
    } else {
        base.push(SLASH) + relative
    }
}

/// What a name between two slashes contributes: nothing if it is empty or `.`.
pub open spec fn piece(name: Seq<u8>) -> Seq<Piece> {
    if name.len() == 0 || name == seq![DOT] {
        seq![]
    } else if name == seq![DOT, DOT] {
        seq![Piece::Parent]
    } else {
        seq![Piece::Normal(name)]
    }
}

/// The components that stand between the slashes of `path`.
pub open spec fn inner_pieces(path: Seq<u8>) -> Seq<Piece>
    decreases path.len(),
{
    let end = find(path, SLASH) as int;
    if end < path.len() {
        piece(path.take(end)) + inner_pieces(path.skip(end + 1))
    } else {
        piece(path)
    }
}

/// Whether a path begins with the component `.`.
pub open spec fn begins_with_dot(path: Seq<u8>) -> bool {
    path.len() > 0 && path[0] == DOT && (path.len() == 1 || path[1] == SLASH)
}

/// The components of a path. Repeated and trailing slashes do not count, nor does `.` except as
/// the first component of a relative path.
pub open spec fn pieces(path: Seq<u8>) -> Seq<Piece> {
    if absolute(path) {
        seq![Piece::Root] + inner_pieces(path)
    } else if begins_with_dot(path) {
        seq![Piece::Current] + inner_pieces(path)
    } else {
        inner_pieces(path)
    }
}

/// Whether two paths are equal: they have the same components.
pub open spec fn same_path(left: Seq<u8>, right: Seq<u8>) -> bool {
    pieces(left) == pieces(right)
}

/// Whether `path` lies directly in `directory`.
pub open spec fn lies_in(path: Seq<u8>, directory: Seq<u8>) -> bool {
    let all = pieces(path);
    all.len() > 0 && !(all.last() is Root) && all.drop_last() == pieces(directory)
}

/// The last component of a path, if it is a name.
pub open spec fn last_name(path: Seq<u8>) -> Option<Seq<u8>> {
    let all = pieces(path);
    if all.len() > 0 {
        match all.last() {
            Piece::Normal(name) => Some(name),
            _ => None,
        }
    } else {
        None
    }
}

/// Whether there is a directory in which `path` lies.
pub open spec fn has_parent(path: Seq<u8>) -> bool {
    pieces(path).len() > 0 && !(pieces(path).last() is Root)
}

/// The name of the directory in which `path` lies, if it is a name.
pub open spec fn parent_name(path: Seq<u8>) -> Option<Seq<u8>> {
    let above = pieces(path).drop_last();
    if has_parent(path) && above.len() > 0 {
        match above.last() {
            Piece::Normal(name) => Some(name),
            _ => None,
        }
    } else {
        None
    }
}

/// How many bytes of a path are its root, or the `.` that it begins with.
pub open spec fn head_length(path: Seq<u8>) -> nat {
    if absolute(path) || begins_with_dot(path) {
        1
    } else {
        0
    }
}

/// Where the last slash of `path` stands, the first `from` bytes not counting, or else `from`.
pub open spec fn last_cut(path: Seq<u8>, from: nat) -> nat
    decreases path.len(),
{
    if path.len() <= from {
        from
    } else if path.last() == SLASH {
        (path.len() - 1) as nat
    } else {
        last_cut(path.drop_last(), from)
    }
}

/// What stands behind the last slash of `path`.
pub open spec fn last_part(path: Seq<u8>, from: nat) -> Seq<u8> {
    let cut = last_cut(path, from) as int;
    if path[cut] == SLASH {
        path.skip(cut + 1)
    } else {
        path.skip(cut)
    }
}

/// `path` without what it has behind its last component: slashes, and `.` between slashes.
pub open spec fn shortened(path: Seq<u8>, from: nat) -> Seq<u8>
    decreases path.len(),
    when from <= path.len()
    via shortened_decreases
{
    if path.len() > from && piece(last_part(path, from)).len() == 0 {
        shortened(path.take(last_cut(path, from) as int), from)
    } else {
        path
    }
}

#[via_fn]
proof fn shortened_decreases(path: Seq<u8>, from: nat) {
    lemma_last_cut(path, from);
}

/// The last slash is one.
pub proof fn lemma_last_cut(path: Seq<u8>, from: nat)
    requires
        from <= path.len(),
    ensures
        from <= last_cut(path, from) <= path.len(),
        path.len() > from ==> last_cut(path, from) < path.len() && (path[last_cut(
            path,
            from,
        ) as int] == SLASH || last_cut(path, from) == from),
        forall|k: int| last_cut(path, from) < k < path.len() ==> #[trigger] path[k] != SLASH,
    decreases path.len(),
{
    if path.len() > from && path.last() != SLASH {
        lemma_last_cut(path.drop_last(), from);
        assert forall|k: int| last_cut(path, from) < k < path.len() implies #[trigger] path[k]
            != SLASH by {
            if k < path.len() - 1 {
                assert(path.drop_last()[k] == path[k]);
            }
        }
    }
}

/// The directory in which a path lies, whose last component is a name.
pub open spec fn directory(path: Seq<u8>) -> Seq<u8> {
    let from = head_length(path);
    let whole = shortened(path, from);
    shortened(whole.take(last_cut(whole, from) as int), from)
}

/// `path` with `name` in place of its last component, if that is a name, and otherwise with `name`
/// behind it.
pub open spec fn sibling(path: Seq<u8>, name: Seq<u8>) -> Seq<u8> {
    if last_name(path) is Some {
        joined(directory(path), name)
    } else {
        joined(path, name)
    }
}

/// A path for display.
pub open spec fn shown(path: Seq<u8>) -> Seq<char> {
    lossy_text(path)
}

impl UnixPath {
    /// The path with the given text.
    pub fn new(text: &str) -> (path: UnixPath)
        ensures
            path@ == encode_utf8(text@),
    {
        UnixPath { bytes: encode(text) }
    }

    /// The path with the given bytes.
    pub fn from_bytes(bytes: Vec<u8>) -> (path: UnixPath)
        ensures
            path@ == bytes@,
    {
        UnixPath { bytes }
    }

    /// Another copy of the path.
    pub fn copy(&self) -> (path: UnixPath)
        ensures
            path@ == self@,
    {
        UnixPath { bytes: copied(&self.bytes) }
    }

    /// Whether the path is absolute.
    pub fn is_absolute(&self) -> (yes: bool)
        ensures
            yes == absolute(self@),
    {
        self.bytes.len() > 0 && self.bytes[0] == SLASH
    }

    /// `relative` seen from this path.
    pub fn join_path(&self, relative: &UnixPath) -> (path: UnixPath)
        ensures
            path@ == joined(self@, relative@),
    {
        if relative.is_absolute() {
            return relative.copy();
        }
        let mut bytes = copied(&self.bytes);
        if bytes.len() > 0 && bytes[bytes.len() - 1] != SLASH {
            bytes.push(SLASH);
        }
        let mut more = copied(&relative.bytes);
        bytes.append(&mut more);
        UnixPath { bytes }
    }

    /// The path with the text `relative`, seen from this path.
    pub fn join(&self, relative: &str) -> (path: UnixPath)
        ensures
            path@ == joined(self@, encode_utf8(relative@)),
    {
        self.join_path(&UnixPath::new(relative))
    }

    /// The path with another name in place of its last component, if that is a name.
    pub fn with_file_name(&self, name: &str) -> (path: UnixPath)
        ensures
            path@ == sibling(self@, encode_utf8(name@)),
    {
        if self.file_name().is_none() {
            return self.join(name);
        }
        let absolute_or_dot: bool = self.bytes.len() > 0 && (self.bytes[0] == SLASH || (
        self.bytes[0] == DOT && (self.bytes.len() == 1 || self.bytes[1] == SLASH)));
        let from: usize = if absolute_or_dot {
            1
        } else {
            0
        };
        let mut bytes = copied(&self.bytes);
        shorten(&mut bytes, from);
        let at: usize = cut_of(&bytes, from);
        bytes.truncate(at);
        assert(bytes@ =~= shortened(self@, from as nat).take(at as int));
        shorten(&mut bytes, from);
        UnixPath { bytes }.join(name)
    }

    /// The components of the path.
    pub fn components(&self) -> (list: Vec<Component>)
        ensures
            pieces_of(list@) == pieces(self@),
    {
        let bytes = &self.bytes;
        let mut list: Vec<Component> = Vec::new();
        if bytes.len() > 0 && bytes[0] == SLASH {
            list.push(Component::Root);
        } else if bytes.len() > 0 && bytes[0] == DOT && (bytes.len() == 1 || bytes[1] == SLASH) {
            list.push(Component::Current);
        }
        let ghost head = pieces_of(list@);
        assert(head + inner_pieces(self@) =~= pieces(self@));
        let mut start: usize = 0;
        let mut more: bool = true;
        assert(self@.skip(0) =~= self@);
        while more
            invariant
                bytes@ == self@,
                start <= bytes.len(),
                head + inner_pieces(self@) == pieces(self@),
                more ==> pieces_of(list@) + inner_pieces(self@.skip(start as int)) == pieces(self@),
                !more ==> pieces_of(list@) == pieces(self@),
            decreases (if more { bytes.len() - start + 1 } else { 0 }),
        {
            let ghost rest = self@.skip(start as int);
            let mut end: usize = start;
            while end < bytes.len() && bytes[end] != SLASH
                invariant
                    bytes@ == self@,
                    start <= end <= bytes.len(),
                    rest == self@.skip(start as int),
                    forall|k: int| 0 <= k < end - start ==> rest[k] != SLASH,
                decreases bytes.len() - end,
            {
                end = end + 1;
            }
            proof {
                lemma_find(rest, SLASH, end - start);
            }
            let ghost name = rest.take(end - start);
            let ghost before = pieces_of(list@);
            let length: usize = end - start;
            if length == 0 || (length == 1 && bytes[start] == DOT) {
                assert(length == 1 ==> name =~= seq![DOT]);
                assert(piece(name) =~= seq![]);
                assert(pieces_of(list@) =~= before + piece(name));
            } else if length == 2 && bytes[start] == DOT && bytes[start + 1] == DOT {
                assert(name =~= seq![DOT, DOT]);
                list.push(Component::Parent);
                assert(pieces_of(list@) =~= before + piece(name));
            } else {
                let mut part: Vec<u8> = Vec::new();
                let mut at: usize = start;
                while at < end
                    invariant
                        bytes@ == self@,
                        start <= at <= end <= bytes.len(),
                        part@ == self@.subrange(start as int, at as int),
                    decreases end - at,
                {
                    part.push(bytes[at]);
                    at = at + 1;
                }
                assert(part@ =~= name);
                assert(name[0] == bytes@[start as int]);
                assert(length == 2 ==> name[1] == bytes@[start + 1]);
                list.push(Component::Normal(part));
                assert(pieces_of(list@) =~= before + piece(name));
            }
            if end < bytes.len() {
                assert(rest.skip(end - start + 1) =~= self@.skip(end + 1));
                assert(before + (piece(name) + inner_pieces(self@.skip(end + 1))) =~= pieces_of(
                    list@,
                ) + inner_pieces(self@.skip(end + 1)));
                start = end + 1;
            } else {
                assert(name =~= rest);
                more = false;
            }
        }
        list
    }

    /// Whether two paths are equal.
    pub fn same_as(&self, other: &UnixPath) -> (equal: bool)
        ensures
            equal == same_path(self@, other@),
    {
        same_components(&self.components(), &other.components())
    }

    /// Whether the path lies directly in `directory`.
    pub fn is_in(&self, directory: &UnixPath) -> (yes: bool)
        ensures
            yes == lies_in(self@, directory@),
    {
        let mut list = self.components();
        let ghost all = list@;
        match list.pop() {
            None => false,
            Some(last) => {
                assert(pieces_of(list@) =~= pieces(self@).drop_last());
                assert(pieces(self@).last() == last@);
                match last {
                    Component::Root => false,
                    _ => same_components(&list, &directory.components()),
                }
            },
        }
    }

    /// The last component of the path, if it is a name.
    pub fn file_name(&self) -> (name: Option<Vec<u8>>)
        ensures
            match name {
                Some(name) => last_name(self@) == Some(name@),
                None => last_name(self@) is None,
            },
    {
        let mut list = self.components();
        let ghost all = list@;
        match list.pop() {
            None => None,
            Some(last) => {
                assert(pieces(self@).last() == last@);
                match last {
                    Component::Normal(name) => Some(name),
                    _ => None,
                }
            },
        }
    }

    /// Whether there is a directory in which the path lies, and its name, if it is a name.
    pub fn parent(&self) -> (parent: (bool, Option<Vec<u8>>))
        ensures
            parent.0 == has_parent(self@),
            match parent.1 {
                Some(name) => parent_name(self@) == Some(name@),
                None => parent_name(self@) is None,
            },
    {
        let mut list = self.components();
        let ghost all = list@;
        match list.pop() {
            None => (false, None),
            Some(last) => {
                assert(pieces_of(list@) =~= pieces(self@).drop_last());
                assert(pieces(self@).last() == last@);
                match last {
                    Component::Root => (false, None),
                    _ => {
                        let ghost above = list@;
                        match list.pop() {
                            None => (true, None),
                            Some(directory) => {
                                assert(pieces_of(above).last() == directory@);
                                match directory {
                                    Component::Normal(name) => (true, Some(name)),
                                    _ => (true, None),
                                }
                            },
                        }
                    },
                }
            },
        }
    }

    /// The path for display.
    pub fn display(&self) -> (text: String)
        ensures
            text@ == shown(self@),
    {
        decode_lossy(&self.bytes)
    }
}

fn cut_of(bytes: &Vec<u8>, from: usize) -> (cut: usize)
    requires
        from <= bytes.len(),
    ensures
        cut == last_cut(bytes@, from as nat),
        from <= cut <= bytes.len(),
        bytes.len() > from ==> cut < bytes.len(),
{
    proof {
        lemma_last_cut(bytes@, from as nat);
    }
    let mut end: usize = bytes.len();
    assert(bytes@.take(end as int) =~= bytes@);
    while end > from && bytes[end - 1] != SLASH
        invariant
            from <= end <= bytes.len(),
            last_cut(bytes@.take(end as int), from as nat) == last_cut(bytes@, from as nat),
        decreases end,
    {
        assert(bytes@.take(end as int).drop_last() =~= bytes@.take(end - 1));
        end = end - 1;
    }
    if end > from {
        end - 1
    } else {
        from
    }
}

fn shorten(bytes: &mut Vec<u8>, from: usize)
    requires
        from <= old(bytes).len(),
    ensures
        final(bytes)@ == shortened(old(bytes)@, from as nat),
        from <= final(bytes).len(),
{
    let mut more: bool = true;
    while more
        invariant
            from <= bytes.len(),
            shortened(bytes@, from as nat) == shortened(old(bytes)@, from as nat),
            !more ==> bytes@ == shortened(old(bytes)@, from as nat),
        decreases bytes.len(), (if more { 1int } else { 0int }),
    {
        more = false;
        if bytes.len() > from {
            let cut: usize = cut_of(bytes, from);
            let start: usize = if bytes[cut] == SLASH {
                cut + 1
            } else {
                cut
            };
            let ghost part = last_part(bytes@, from as nat);
            assert(part =~= bytes@.skip(start as int));
            let length: usize = bytes.len() - start;
            if length == 0 || (length == 1 && bytes[start] == DOT) {
                assert(length == 1 ==> part =~= seq![DOT]);
                assert(bytes@.take(cut as int) =~= bytes@.subrange(0, cut as int));
                bytes.truncate(cut);
                more = true;
            } else {
                assert(length == 1 ==> part[0] != DOT);
                assert(piece(part).len() == 1);
            }
        }
    }
}

fn same_component(left: &Component, right: &Component) -> (equal: bool)
    ensures
        equal == (left@ == right@),
{
    match (left, right) {
        (Component::Root, Component::Root) => true,
        (Component::Current, Component::Current) => true,
        (Component::Parent, Component::Parent) => true,
        (Component::Normal(left), Component::Normal(right)) => same_bytes(left, right),
        _ => false,
    }
}

fn same_components(left: &Vec<Component>, right: &Vec<Component>) -> (equal: bool)
    ensures
        equal == (pieces_of(left@) == pieces_of(right@)),
{
    if left.len() != right.len() {
        assert(pieces_of(left@).len() != pieces_of(right@).len());
        return false;
    }
    let mut at: usize = 0;
    while at < left.len()
        invariant
            left.len() == right.len(),
            at <= left.len(),
            forall|k: int| 0 <= k < at ==> left@[k]@ == right@[k]@,
        decreases left.len() - at,
    {
        if !same_component(&left[at], &right[at]) {
            assert(pieces_of(left@)[at as int] != pieces_of(right@)[at as int]);
            return false;
        }
        at = at + 1;
    }
    assert(pieces_of(left@) =~= pieces_of(right@));
    true
}

} // verus!
