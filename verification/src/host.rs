//! What nv asks of the machine that it runs on, and what it may assume of the answers.
//!
//! A command is a function of the machine's replies. A [`Session`] holds the replies so far. When
//! a command needs one more, it stops with [`Stop::Waiting`]; the caller performs the awaited
//! [`Action`], hands the reply to [`Session::answer`] and runs the command again, which then takes
//! the same way up to that point and goes on from there.
//!
//! Contracts speak of the [`World`] in which the actions take place: the files on disk, the lines
//! on the terminal, and whatever decides how the rest of the machine behaves. They say what a
//! command does to every world whose answers the replies are. A reply that the world would not
//! have given makes the session unfaithful, and nothing more is claimed.

use vstd::prelude::*;
use vstd::utf8::*;

use crate::encoding::{copied, same_bytes};
use crate::error::NvError;
use crate::path::{SLASH, UnixPath};
use crate::text::same;

verus! {

/// What kind of file a path names, a symbolic link not being followed, with the permission bits
/// that matter.
#[derive(Clone, Copy, Debug, PartialEq, Eq, Structural)]
pub enum Entry {
    Directory(u32),
    File(u32),
    Symlink,
    Other,
}

/// What an inspection finds at a path.
#[derive(Debug)]
pub enum Lookup {
    Present(Entry),
    /// There is nothing; the machine says so in these words.
    Absent(String),
    Failed(String),
}

/// The contents of a `Lookup`.
pub enum Sight {
    Present(Entry),
    Absent(Seq<char>),
    Failed(Seq<char>),
}

impl DeepView for Lookup {
    type V = Sight;

    open spec fn deep_view(&self) -> Sight {
        match self {
            Lookup::Present(entry) => Sight::Present(*entry),
            Lookup::Absent(cause) => Sight::Absent(cause@),
            Lookup::Failed(cause) => Sight::Failed(cause@),
        }
    }
}

/// What comes of an action: a value, or a failure in the words of the machine.
#[derive(Debug)]
pub enum Attempt<T> {
    Done(T),
    Failed(String),
}

impl<T: DeepView> DeepView for Attempt<T> {
    type V = Result<T::V, Seq<char>>;

    open spec fn deep_view(&self) -> Result<T::V, Seq<char>> {
        match self {
            Attempt::Done(value) => Ok(value.deep_view()),
            Attempt::Failed(cause) => Err(cause@),
        }
    }
}

/// What comes of the creation of a file that must not exist yet.
#[derive(Debug)]
pub enum Creation {
    Created,
    /// There is a file already; the machine says so in these words.
    Exists(String),
    Failed(String),
}

/// The contents of a `Creation`.
pub enum Making {
    Created,
    Exists(Seq<char>),
    Failed(Seq<char>),
}

impl DeepView for Creation {
    type V = Making;

    open spec fn deep_view(&self) -> Making {
        match self {
            Creation::Created => Making::Created,
            Creation::Exists(cause) => Making::Exists(cause@),
            Creation::Failed(cause) => Making::Failed(cause@),
        }
    }
}

/// What a directory holds.
#[derive(Debug)]
pub enum Listing {
    Names(Vec<UnixPath>),
    /// The directory could not be opened.
    Unreadable(String),
    /// An entry could not be read.
    Broken(String),
}

/// The contents of a `Listing`.
pub enum Names {
    Names(Seq<Seq<u8>>),
    Unreadable(Seq<char>),
    Broken(Seq<char>),
}

impl DeepView for Listing {
    type V = Names;

    open spec fn deep_view(&self) -> Names {
        match self {
            Listing::Names(names) => Names::Names(names.deep_view()),
            Listing::Unreadable(cause) => Names::Unreadable(cause@),
            Listing::Broken(cause) => Names::Broken(cause@),
        }
    }
}

/// A program to run, with its arguments.
#[derive(Debug)]
pub struct Command {
    pub program: UnixPath,
    pub arguments: Vec<UnixPath>,
    /// Whether what the program reports goes to the terminal directly.
    pub report: bool,
}

/// The contents of a `Command`.
pub struct Invocation {
    pub program: Seq<u8>,
    pub arguments: Seq<Seq<u8>>,
    pub report: bool,
}

impl DeepView for Command {
    type V = Invocation;

    open spec fn deep_view(&self) -> Invocation {
        Invocation {
            program: self.program@,
            arguments: self.arguments.deep_view(),
            report: self.report,
        }
    }
}

/// How a program ended, and what it wrote.
#[derive(Debug)]
pub struct Output {
    /// Its exit status, unless a signal ended it.
    pub code: Option<i32>,
    pub stdout: Vec<u8>,
    pub stderr: Vec<u8>,
}

/// The contents of an `Output`.
pub struct Ending {
    pub code: Option<i32>,
    pub stdout: Seq<u8>,
    pub stderr: Seq<u8>,
}

impl DeepView for Output {
    type V = Ending;

    open spec fn deep_view(&self) -> Ending {
        Ending { code: self.code, stdout: self.stdout@, stderr: self.stderr@ }
    }
}

/// Something that nv asks the machine to do.
#[derive(Debug)]
pub enum Action {
    /// Look what a path names, without following a symbolic link.
    Inspect(UnixPath),
    ReadLink(UnixPath),
    ReadText(UnixPath),
    /// Read at most that many bytes from the beginning of a file, as text.
    ReadHead(UnixPath, u64),
    /// Measure a file in bytes.
    Measure(UnixPath),
    List(UnixPath),
    Run(Command),
    /// Read the clock, in nanoseconds since the Unix epoch.
    Clock,
    /// Create and open a file that must not exist yet.
    CreateNew(UnixPath),
    /// Write to the file that was created last.
    Write(UnixPath, String),
    /// Flush the file that was created last.
    Flush(UnixPath),
    /// Bring the file that was created last to disk.
    SyncFile(UnixPath),
    MakeDirectory(UnixPath),
    /// Make a directory and those above it, for the user alone.
    MakePrivateDirectories(UnixPath),
    /// Make a symbolic link with that target at that path.
    Link(UnixPath, UnixPath),
    /// Move what is at the first path to the second.
    Rename(UnixPath, UnixPath),
    RemoveFile(UnixPath),
    /// Remove a directory and what is in it.
    RemoveTree(UnixPath),
    SyncDirectory(UnixPath),
    /// Write a line to the standard output.
    Print(String),
    /// Write a line to the standard error.
    Warn(String),
}

/// The contents of an `Action`.
pub enum Deed {
    Inspect(Seq<u8>),
    ReadLink(Seq<u8>),
    ReadText(Seq<u8>),
    ReadHead(Seq<u8>, u64),
    Measure(Seq<u8>),
    List(Seq<u8>),
    Run(Invocation),
    Clock,
    CreateNew(Seq<u8>),
    Write(Seq<u8>, Seq<char>),
    Flush(Seq<u8>),
    SyncFile(Seq<u8>),
    MakeDirectory(Seq<u8>),
    MakePrivateDirectories(Seq<u8>),
    Link(Seq<u8>, Seq<u8>),
    Rename(Seq<u8>, Seq<u8>),
    RemoveFile(Seq<u8>),
    RemoveTree(Seq<u8>),
    SyncDirectory(Seq<u8>),
    Print(Seq<char>),
    Warn(Seq<char>),
}

impl Deed {
    /// Whether the action has no other result than to succeed or to fail.
    pub open spec fn is_effect(self) -> bool {
        match self {
            Deed::Inspect(_) | Deed::ReadLink(_) | Deed::ReadText(_) | Deed::ReadHead(_, _)
            | Deed::Measure(_) | Deed::List(_) | Deed::Run(_) | Deed::Clock | Deed::CreateNew(
                _,
            ) => false,
            _ => true,
        }
    }
}

impl View for Action {
    type V = Deed;

    open spec fn view(&self) -> Deed {
        match self {
            Action::Inspect(path) => Deed::Inspect(path@),
            Action::ReadLink(path) => Deed::ReadLink(path@),
            Action::ReadText(path) => Deed::ReadText(path@),
            Action::ReadHead(path, limit) => Deed::ReadHead(path@, *limit),
            Action::Measure(path) => Deed::Measure(path@),
            Action::List(path) => Deed::List(path@),
            Action::Run(command) => Deed::Run(command.deep_view()),
            Action::Clock => Deed::Clock,
            Action::CreateNew(path) => Deed::CreateNew(path@),
            Action::Write(path, text) => Deed::Write(path@, text@),
            Action::Flush(path) => Deed::Flush(path@),
            Action::SyncFile(path) => Deed::SyncFile(path@),
            Action::MakeDirectory(path) => Deed::MakeDirectory(path@),
            Action::MakePrivateDirectories(path) => Deed::MakePrivateDirectories(path@),
            Action::Link(target, path) => Deed::Link(target@, path@),
            Action::Rename(from, to) => Deed::Rename(from@, to@),
            Action::RemoveFile(path) => Deed::RemoveFile(path@),
            Action::RemoveTree(path) => Deed::RemoveTree(path@),
            Action::SyncDirectory(path) => Deed::SyncDirectory(path@),
            Action::Print(text) => Deed::Print(text@),
            Action::Warn(text) => Deed::Warn(text@),
        }
    }
}

fn same_paths(left: &Vec<UnixPath>, right: &Vec<UnixPath>) -> (equal: bool)
    ensures
        equal == (left.deep_view() == right.deep_view()),
{
    assert(left.deep_view().len() == left.len() && right.deep_view().len() == right.len());
    if left.len() != right.len() {
        return false;
    }
    let mut at: usize = 0;
    while at < left.len()
        invariant
            left.len() == right.len(),
            at <= left.len(),
            forall|k: int| 0 <= k < at ==> left@[k]@ == right@[k]@,
        decreases left.len() - at,
    {
        if !same_bytes(&left[at].bytes, &right[at].bytes) {
            assert(left.deep_view()[at as int] != right.deep_view()[at as int]);
            return false;
        }
        at = at + 1;
    }
    assert(left.deep_view() =~= right.deep_view());
    true
}

impl Action {
    /// Whether two actions are the same.
    pub fn same_as(&self, other: &Action) -> (equal: bool)
        ensures
            equal == (self@ == other@),
    {
        match (self, other) {
            (Action::Inspect(left), Action::Inspect(right)) => same_bytes(
                &left.bytes,
                &right.bytes,
            ),
            (Action::ReadLink(left), Action::ReadLink(right)) => same_bytes(
                &left.bytes,
                &right.bytes,
            ),
            (Action::ReadText(left), Action::ReadText(right)) => same_bytes(
                &left.bytes,
                &right.bytes,
            ),
            (Action::ReadHead(left, limit), Action::ReadHead(right, other_limit)) => same_bytes(
                &left.bytes,
                &right.bytes,
            ) && *limit == *other_limit,
            (Action::Measure(left), Action::Measure(right)) => same_bytes(
                &left.bytes,
                &right.bytes,
            ),
            (Action::List(left), Action::List(right)) => same_bytes(&left.bytes, &right.bytes),
            (Action::Run(left), Action::Run(right)) => same_bytes(
                &left.program.bytes,
                &right.program.bytes,
            ) && same_paths(&left.arguments, &right.arguments) && left.report == right.report,
            (Action::Clock, Action::Clock) => true,
            (Action::CreateNew(left), Action::CreateNew(right)) => same_bytes(
                &left.bytes,
                &right.bytes,
            ),
            (Action::Write(left, text), Action::Write(right, other_text)) => same_bytes(
                &left.bytes,
                &right.bytes,
            ) && same(text.as_str(), other_text.as_str()),
            (Action::Flush(left), Action::Flush(right)) => same_bytes(&left.bytes, &right.bytes),
            (Action::SyncFile(left), Action::SyncFile(right)) => same_bytes(
                &left.bytes,
                &right.bytes,
            ),
            (Action::MakeDirectory(left), Action::MakeDirectory(right)) => same_bytes(
                &left.bytes,
                &right.bytes,
            ),
            (
                Action::MakePrivateDirectories(left),
                Action::MakePrivateDirectories(right),
            ) => same_bytes(&left.bytes, &right.bytes),
            (Action::Link(target, left), Action::Link(other_target, right)) => same_bytes(
                &target.bytes,
                &other_target.bytes,
            ) && same_bytes(&left.bytes, &right.bytes),
            (Action::Rename(from, left), Action::Rename(other_from, right)) => same_bytes(
                &from.bytes,
                &other_from.bytes,
            ) && same_bytes(&left.bytes, &right.bytes),
            (Action::RemoveFile(left), Action::RemoveFile(right)) => same_bytes(
                &left.bytes,
                &right.bytes,
            ),
            (Action::RemoveTree(left), Action::RemoveTree(right)) => same_bytes(
                &left.bytes,
                &right.bytes,
            ),
            (Action::SyncDirectory(left), Action::SyncDirectory(right)) => same_bytes(
                &left.bytes,
                &right.bytes,
            ),
            (Action::Print(text), Action::Print(other_text)) => same(
                text.as_str(),
                other_text.as_str(),
            ),
            (Action::Warn(text), Action::Warn(other_text)) => same(
                text.as_str(),
                other_text.as_str(),
            ),
            _ => false,
        }
    }
}

/// The machine's reply to an action.
#[derive(Debug)]
pub enum Reply {
    /// To `Inspect`.
    Found(Lookup),
    /// To `ReadLink`.
    Target(Attempt<UnixPath>),
    /// To `ReadText`.
    Text(Attempt<String>),
    /// To `ReadHead`; empty if there is nothing to read, or no text.
    Head(String),
    /// To `Measure`.
    Size(Attempt<u64>),
    /// To `List`.
    Listed(Listing),
    /// To `Run`.
    Ended(Attempt<Output>),
    /// To `Clock`.
    Time(Attempt<u128>),
    /// To `CreateNew`.
    Opened(Creation),
    /// To everything else.
    Acted(Attempt<()>),
}

/// What is at a path of a world.
pub enum Node {
    Directory { mode: u32 },
    File { mode: u32, contents: Seq<u8> },
    Link { target: Seq<u8> },
    Other,
}

impl Node {
    /// How the node appears to an inspection.
    pub open spec fn entry(self) -> Entry {
        match self {
            Node::Directory { mode } => Entry::Directory(mode),
            Node::File { mode, .. } => Entry::File(mode),
            Node::Link { .. } => Entry::Symlink,
            Node::Other => Entry::Other,
        }
    }
}

/// A failure: the machine's words, and what it leaves on disk.
pub struct Fault {
    pub text: Seq<char>,
    pub nodes: Map<Seq<u8>, Node>,
}

/// What decides how the machine behaves. The first argument of each function, where it is a
/// number, tells one moment from another.
pub struct Outside {
    /// Whether an action fails for a reason that the disk does not show.
    pub fault: spec_fn(nat, Map<Seq<u8>, Node>, Deed) -> Option<Fault>,
    /// How the machine puts it that an action is not possible.
    pub refusal: spec_fn(Deed) -> Seq<char>,
    /// What the symbolic link at a path leads to in the end.
    pub end: spec_fn(Map<Seq<u8>, Node>, Seq<u8>) -> Option<Node>,
    /// What size the machine gives for what is no regular file.
    pub extent: spec_fn(Map<Seq<u8>, Node>, Seq<u8>) -> u64,
    /// In which order a directory lists its entries.
    pub order: spec_fn(Map<Seq<u8>, Node>, Seq<u8>) -> Seq<Seq<u8>>,
    /// Whether an entry of a directory cannot be read.
    pub broken: spec_fn(nat, Map<Seq<u8>, Node>, Seq<u8>) -> Option<Seq<char>>,
    /// How a program ends, and what it leaves on disk.
    pub program: spec_fn(nat, Map<Seq<u8>, Node>, Invocation) -> (
        Result<Ending, Seq<char>>,
        Map<Seq<u8>, Node>,
    ),
    /// What the clock shows.
    pub clock: spec_fn(nat) -> Result<u128, Seq<char>>,
    /// The permission bits that new files do not get.
    pub umask: u32,
}

/// A line on the terminal.
pub enum Line {
    Told(Seq<char>),
    Warned(Seq<char>),
}

/// The world in which a command takes place.
pub struct World {
    pub nodes: Map<Seq<u8>, Node>,
    pub output: Seq<Line>,
    pub moment: nat,
    pub outside: Outside,
}

/// Whether `path` is `top` or lies somewhere below it.
pub open spec fn reaches(top: Seq<u8>, path: Seq<u8>) -> bool {
    path == top || {
        &&& path.len() > top.len()
        &&& path.take(top.len() as int) == top
        &&& path[top.len() as int] == SLASH
    }
}

/// The disk after `from` and what is below it have moved to `to`.
pub open spec fn moved(nodes: Map<Seq<u8>, Node>, from: Seq<u8>, to: Seq<u8>) -> Map<
    Seq<u8>,
    Node,
> {
    Map::new(
        |path: Seq<u8>|
            if reaches(to, path) {
                nodes.contains_key(from + path.skip(to.len() as int))
            } else {
                nodes.contains_key(path) && !reaches(from, path)
            },
        |path: Seq<u8>|
            if reaches(to, path) {
                nodes[from + path.skip(to.len() as int)]
            } else {
                nodes[path]
            },
    )
}

/// The disk without `top` and what is below it.
pub open spec fn cleared(nodes: Map<Seq<u8>, Node>, top: Seq<u8>) -> Map<Seq<u8>, Node> {
    Map::new(
        |path: Seq<u8>| nodes.contains_key(path) && !reaches(top, path),
        |path: Seq<u8>| nodes[path],
    )
}

/// The disk with `path` and all that is above it as directories; those that are missing get
/// `mode`.
pub open spec fn with_directories(nodes: Map<Seq<u8>, Node>, path: Seq<u8>, mode: u32) -> Map<
    Seq<u8>,
    Node,
> {
    Map::new(
        |other: Seq<u8>| nodes.contains_key(other) || (other.len() > 0 && reaches(other, path)),
        |other: Seq<u8>|
            if nodes.contains_key(other) {
                nodes[other]
            } else {
                Node::Directory { mode }
            },
    )
}

impl World {
    /// The fault, if any, that prevents an action.
    pub open spec fn fault(self, deed: Deed) -> Option<Fault> {
        (self.outside.fault)(self.moment, self.nodes, deed)
    }

    /// What `path` leads to, a symbolic link being followed.
    pub open spec fn followed(self, path: Seq<u8>) -> Option<Node> {
        if !self.nodes.contains_key(path) {
            None
        } else if self.nodes[path] is Link {
            (self.outside.end)(self.nodes, path)
        } else {
            Some(self.nodes[path])
        }
    }

    /// What an inspection of `path` finds.
    #[verifier::opaque]
    pub open spec fn sight(self, path: Seq<u8>) -> Sight {
        match self.fault(Deed::Inspect(path)) {
            Some(fault) => Sight::Failed(fault.text),
            None => if self.nodes.contains_key(path) {
                Sight::Present(self.nodes[path].entry())
            } else {
                Sight::Absent((self.outside.refusal)(Deed::Inspect(path)))
            },
        }
    }

    /// The target of the symbolic link at `path`.
    #[verifier::opaque]
    pub open spec fn target(self, path: Seq<u8>) -> Result<Seq<u8>, Seq<char>> {
        match self.fault(Deed::ReadLink(path)) {
            Some(fault) => Err(fault.text),
            None => if self.nodes.contains_key(path) {
                match self.nodes[path] {
                    Node::Link { target } => Ok(target),
                    _ => Err((self.outside.refusal)(Deed::ReadLink(path))),
                }
            } else {
                Err((self.outside.refusal)(Deed::ReadLink(path)))
            },
        }
    }

    /// The text in the file at `path`.
    #[verifier::opaque]
    pub open spec fn text(self, path: Seq<u8>) -> Result<Seq<char>, Seq<char>> {
        match self.fault(Deed::ReadText(path)) {
            Some(fault) => Err(fault.text),
            None => match self.followed(path) {
                Some(Node::File { contents, .. }) => if valid_utf8(contents) {
                    Ok(decode_utf8(contents))
                } else {
                    Err((self.outside.refusal)(Deed::ReadText(path)))
                },
                _ => Err((self.outside.refusal)(Deed::ReadText(path))),
            },
        }
    }

    /// The text with which the file at `path` begins.
    #[verifier::opaque]
    pub open spec fn head(self, path: Seq<u8>, limit: u64) -> Seq<char> {
        if self.fault(Deed::ReadHead(path, limit)) is None {
            match self.followed(path) {
                Some(Node::File { contents, .. }) => {
                    let part = if contents.len() > limit {
                        contents.take(limit as int)
                    } else {
                        contents
                    };
                    if valid_utf8(part) {
                        decode_utf8(part)
                    } else {
                        seq![]
                    }
                },
                _ => seq![],
            }
        } else {
            seq![]
        }
    }

    /// How many bytes the file at `path` has.
    #[verifier::opaque]
    pub open spec fn size(self, path: Seq<u8>) -> Result<u64, Seq<char>> {
        match self.fault(Deed::Measure(path)) {
            Some(fault) => Err(fault.text),
            None => match self.followed(path) {
                Some(Node::File { contents, .. }) => Ok(contents.len() as u64),
                Some(_) => Ok((self.outside.extent)(self.nodes, path)),
                None => Err((self.outside.refusal)(Deed::Measure(path))),
            },
        }
    }

    /// What the directory at `path` holds.
    #[verifier::opaque]
    pub open spec fn listing(self, path: Seq<u8>) -> Names {
        match self.fault(Deed::List(path)) {
            Some(fault) => Names::Unreadable(fault.text),
            None => match self.followed(path) {
                Some(Node::Directory { .. }) => match (self.outside.broken)(
                    self.moment,
                    self.nodes,
                    path,
                ) {
                    Some(text) => Names::Broken(text),
                    None => Names::Names((self.outside.order)(self.nodes, path)),
                },
                _ => Names::Unreadable((self.outside.refusal)(Deed::List(path))),
            },
        }
    }

    /// The world a moment later, with `nodes` on disk.
    pub open spec fn with(self, nodes: Map<Seq<u8>, Node>) -> World {
        World { nodes, moment: self.moment + 1, ..self }
    }

    /// The world a moment later, with one more line on the terminal.
    pub open spec fn with_line(self, line: Line) -> World {
        World { output: self.output.push(line), moment: self.moment + 1, ..self }
    }

    /// What a program does.
    #[verifier::opaque]
    pub open spec fn run(self, invocation: Invocation) -> (Result<Ending, Seq<char>>, World) {
        let (ending, nodes) = (self.outside.program)(self.moment, self.nodes, invocation);
        (ending, self.with(nodes))
    }

    /// What the clock shows.
    #[verifier::opaque]
    pub open spec fn time(self) -> (Result<u128, Seq<char>>, World) {
        ((self.outside.clock)(self.moment), self.with(self.nodes))
    }

    /// What comes of the creation of a file.
    #[verifier::opaque]
    pub open spec fn create(self, path: Seq<u8>) -> (Making, World) {
        match self.fault(Deed::CreateNew(path)) {
            Some(fault) => (Making::Failed(fault.text), self.with(fault.nodes)),
            None => if self.nodes.contains_key(path) {
                (
                    Making::Exists((self.outside.refusal)(Deed::CreateNew(path))),
                    self.with(self.nodes),
                )
            } else {
                (
                    Making::Created,
                    self.with(
                        self.nodes.insert(
                            path,
                            Node::File { mode: 0o666 & !self.outside.umask, contents: seq![] },
                        ),
                    ),
                )
            },
        }
    }

    /// The world after an action that succeeds.
    pub open spec fn after(self, deed: Deed) -> World {
        match deed {
            Deed::Write(path, text) => match self.nodes[path] {
                Node::File { mode, contents } => self.with(
                    self.nodes.insert(
                        path,
                        Node::File { mode, contents: contents + encode_utf8(text) },
                    ),
                ),
                _ => self.with(self.nodes),
            },
            Deed::MakeDirectory(path) => self.with(
                self.nodes.insert(path, Node::Directory { mode: 0o777 & !self.outside.umask }),
            ),
            Deed::MakePrivateDirectories(path) => self.with(
                with_directories(self.nodes, path, 0o700 & !self.outside.umask),
            ),
            Deed::Link(target, path) => self.with(
                self.nodes.insert(path, Node::Link { target }),
            ),
            Deed::Rename(from, to) => self.with(moved(self.nodes, from, to)),
            Deed::RemoveFile(path) => self.with(self.nodes.remove(path)),
            Deed::RemoveTree(path) => self.with(cleared(self.nodes, path)),
            Deed::Print(text) => self.with_line(Line::Told(text)),
            Deed::Warn(text) => self.with_line(Line::Warned(text)),
            _ => self.with(self.nodes),
        }
    }

    /// Whether the disk permits an action.
    pub open spec fn permits(self, deed: Deed) -> bool {
        match deed {
            Deed::Write(path, _) => self.nodes.contains_key(path) && self.nodes[path] is File,
            Deed::MakeDirectory(path) | Deed::Link(_, path) => !self.nodes.contains_key(path),
            Deed::MakePrivateDirectories(path) => forall|other: Seq<u8>|
                self.nodes.contains_key(other) && other.len() > 0 && #[trigger] reaches(other, path)
                    ==> self.nodes[other] is Directory || self.nodes[other] is Link,
            Deed::Rename(from, to) => {
                &&& self.nodes.contains_key(from)
                &&& self.nodes.contains_key(to) ==> (self.nodes[from] is Directory
                    <==> self.nodes[to] is Directory)
                &&& forall|below: Seq<u8>|
                    self.nodes.contains_key(below) && #[trigger] reaches(to, below) ==> below == to
            },
            Deed::RemoveFile(path) => self.nodes.contains_key(path) && !(
            self.nodes[path] is Directory),
            Deed::RemoveTree(path) => self.nodes.contains_key(path) && (
            self.nodes[path] is Directory || self.nodes[path] is Link),
            _ => true,
        }
    }

    /// What comes of an action that has no other result than to succeed or to fail.
    #[verifier::opaque]
    pub open spec fn attempt(self, deed: Deed) -> (Result<(), Seq<char>>, World) {
        match self.fault(deed) {
            Some(fault) => (Err(fault.text), self.with(fault.nodes)),
            None => if self.permits(deed) {
                (Ok(()), self.after(deed))
            } else {
                (Err((self.outside.refusal)(deed)), self.with(self.nodes))
            },
        }
    }
}

/// Why a command does not go on.
#[derive(Debug)]
pub enum Stop {
    /// The reply to the awaited action is missing.
    Waiting,
    Failed(NvError),
}

/// The failure with the given message.
pub fn failed(message: String) -> (stop: Stop)
    ensures
        stop == Stop::Failed(NvError(message)),
{
    Stop::Failed(NvError(message))
}

/// A check's result within a session.
pub fn settled<T>(result: Result<T, NvError>) -> (same: Result<T, Stop>)
    ensures
        match result {
            Ok(value) => same == Ok::<T, Stop>(value),
            Err(cause) => same == Err::<T, Stop>(Stop::Failed(cause)),
        },
{
    match result {
        Ok(value) => Ok(value),
        Err(cause) => Err(Stop::Failed(cause)),
    }
}

/// The result of a command that has ended.
pub open spec fn told<T: DeepView>(done: Result<T, Stop>) -> Option<Result<T::V, Seq<char>>> {
    match done {
        Ok(value) => Some(Ok(value.deep_view())),
        Err(Stop::Failed(cause)) => Some(Err(cause@)),
        Err(Stop::Waiting) => None,
    }
}

/// The world after an action to which the machine gives a reply, if that is the reply that the
/// world gives.
pub open spec fn stepped(w: World, deed: Deed, reply: Reply) -> Option<World> {
    match (deed, reply) {
        (Deed::Inspect(path), Reply::Found(found)) => if found.deep_view() == w.sight(path) {
            Some(w)
        } else {
            None
        },
        (Deed::ReadLink(path), Reply::Target(found)) => if found.deep_view() == w.target(path) {
            Some(w)
        } else {
            None
        },
        (Deed::ReadText(path), Reply::Text(found)) => if found.deep_view() == w.text(path) {
            Some(w)
        } else {
            None
        },
        (Deed::ReadHead(path, limit), Reply::Head(found)) => if found@ == w.head(path, limit) {
            Some(w)
        } else {
            None
        },
        (Deed::Measure(path), Reply::Size(found)) => if found.deep_view() == w.size(path) {
            Some(w)
        } else {
            None
        },
        (Deed::List(path), Reply::Listed(found)) => if found.deep_view() == w.listing(path) {
            Some(w)
        } else {
            None
        },
        (Deed::Run(invocation), Reply::Ended(found)) => if found.deep_view() == w.run(
            invocation,
        ).0 {
            Some(w.run(invocation).1)
        } else {
            None
        },
        (Deed::Clock, Reply::Time(found)) => if found.deep_view() == w.time().0 {
            Some(w.time().1)
        } else {
            None
        },
        (Deed::CreateNew(path), Reply::Opened(found)) => if found.deep_view() == w.create(path).0 {
            Some(w.create(path).1)
        } else {
            None
        },
        (deed, Reply::Acted(found)) => if deed.is_effect() && found.deep_view() == w.attempt(
            deed,
        ).0 {
            Some(w.attempt(deed).1)
        } else {
            None
        },
        _ => None,
    }
}

/// The world after actions to which the machine has replied, if those are the replies that the
/// world gives.
pub open spec fn replayed(w: World, replies: Seq<(Deed, Reply)>) -> Option<World>
    decreases replies.len(),
{
    if replies.len() == 0 {
        Some(w)
    } else {
        match replayed(w, replies.drop_last()) {
            None => None,
            Some(after) => stepped(after, replies.last().0, replies.last().1),
        }
    }
}

/// The replies of the machine so far, each with the action that it belongs to, and how many of
/// them have been used.
pub struct Session {
    replies: Vec<(Action, Reply)>,
    used: usize,
    awaited: Option<Action>,
    origin: Ghost<World>,
    world: Ghost<World>,
    faithful: Ghost<bool>,
}

/// The world after as many of the deeds as there are replies to, the first of which is the reply
/// at `at`, if these are the replies that the world gives to these deeds.
#[verifier::opaque]
pub open spec fn walked(w: World, deeds: Seq<Deed>, replies: Seq<(Deed, Reply)>, at: int) -> Option<
    World,
>
    decreases deeds.len(),
{
    if deeds.len() == 0 || at >= replies.len() {
        Some(w)
    } else if replies[at].0 != deeds[0] {
        None
    } else {
        match stepped(w, replies[at].0, replies[at].1) {
            None => None,
            Some(after) => walked(after, deeds.skip(1), replies, at + 1),
        }
    }
}

/// To walk through some deeds and then through others is to walk through all of them.
pub broadcast proof fn lemma_walked_on(
    w: World,
    first: Seq<Deed>,
    second: Seq<Deed>,
    replies: Seq<(Deed, Reply)>,
    at: int,
)
    ensures
        #[trigger] walked(w, first + second, replies, at) == match walked(w, first, replies, at) {
            None => None,
            Some(after) => walked(after, second, replies, at + first.len()),
        },
    decreases first.len(),
{
    reveal_with_fuel(walked, 2);
    let all = first + second;
    if first.len() == 0 {
        assert(all =~= second);
    } else if at < replies.len() && replies[at].0 == first[0] {
        assert(all.skip(1) =~= first.skip(1) + second);
        if let Some(after) = stepped(w, replies[at].0, replies[at].1) {
            lemma_walked_on(after, first.skip(1), second, replies, at + 1);
        }
    }
}

/// Without deeds, or without replies, the world stays.
pub broadcast proof fn lemma_walked_nowhere(
    w: World,
    deeds: Seq<Deed>,
    replies: Seq<(Deed, Reply)>,
    at: int,
)
    ensures
        deeds.len() == 0 || at >= replies.len() ==> #[trigger] walked(w, deeds, replies, at)
            == Some(w),
{
    reveal(walked);
}

pub broadcast group group_walked {
    lemma_walked_on,
    lemma_walked_nowhere,
    Session::lemma_used,
}

/// What a command does to a session. `deeds` are the actions that the command takes in the world
/// in which it begins, in their order, and `due` is what comes of them.
///
/// The session stays faithful exactly if the replies are those that the world gives to these
/// actions. Then the command ends as soon as there is a reply to each of them, with the result and
/// in the world that are due; and as long as there is not, it waits for the reply to the first
/// action that has none.
pub open spec fn ran<V>(
    before: Session,
    after: Session,
    told: Option<Result<V, Seq<char>>>,
    deeds: Seq<Deed>,
    due: (Result<V, Seq<char>>, World),
) -> bool {
    let replies = before.replies();
    let reached = walked(before.world(), deeds, replies, before.used() as int);
    &&& after.replies() == replies
    &&& after.origin() == before.origin()
    &&& before.sound() ==> after.sound()
    &&& before.used() <= after.used()
    &&& told is None ==> after.used() == replies.len() && after.awaited() is Some
    &&& after.faithful() == (before.faithful() && reached is Some)
    &&& after.faithful() ==> if before.used() + deeds.len() <= replies.len() {
        &&& told == Some(due.0)
        &&& after.world() == due.1
        &&& reached == Some(due.1)
        &&& after.used() == before.used() + deeds.len()
    } else {
        &&& told is None
        &&& reached == Some(after.world())
        &&& after.used() == replies.len()
        &&& after.awaited() == Some(deeds[after.used() - before.used()])
    }
}

/// What a command does that only looks: in addition, the world stays as it is at every moment.
pub open spec fn looked<V>(
    before: Session,
    after: Session,
    told: Option<Result<V, Seq<char>>>,
    deeds: Seq<Deed>,
    due: Result<V, Seq<char>>,
) -> bool {
    &&& ran(before, after, told, deeds, (due, before.world()))
    &&& after.world() == before.world()
}

/// How far a command has come that takes `deeds` from `before` on: `rest` is still to be taken.
pub open spec fn under_way(before: Session, now: Session, deeds: Seq<Deed>, rest: Seq<Deed>) -> bool {
    let replies = before.replies();
    let reached = walked(before.world(), deeds, replies, before.used() as int);
    let taken = now.used() - before.used();
    &&& now.replies() == replies
    &&& now.origin() == before.origin()
    &&& before.sound() ==> now.sound()
    &&& 0 <= taken
    &&& !now.faithful() ==> !before.faithful() || reached is None
    &&& now.faithful() ==> {
        &&& before.faithful()
        &&& reached == walked(now.world(), rest, replies, now.used() as int)
        &&& deeds.len() == taken + rest.len()
        &&& forall|k: int| taken <= k < deeds.len() ==> #[trigger] deeds[k] == rest[k - taken]
    }
}

impl Session {
    /// The actions so far, with the replies to them.
    pub closed spec fn replies(self) -> Seq<(Deed, Reply)> {
        self.replies@.map_values(|pair: (Action, Reply)| (pair.0@, pair.1))
    }

    /// Whether a faithful session has come from the world in which the command began to the present
    /// one by the actions whose replies have been used.
    pub open spec fn sound(self) -> bool {
        self.faithful() ==> replayed(self.origin(), self.replies().take(self.used() as int)) == Some(
            self.world(),
        )
    }

    /// How many of them have been used.
    pub closed spec fn used(self) -> nat {
        if self.used < self.replies.len() {
            self.used as nat
        } else {
            self.replies.len() as nat
        }
    }

    /// No more replies are used than there are.
    pub broadcast proof fn lemma_used(self)
        ensures
            #[trigger] self.used() <= self.replies().len(),
    {
    }

    /// The action for whose reply the command waits.
    pub closed spec fn awaited(self) -> Option<Deed> {
        match self.awaited {
            Some(action) => Some(action@),
            None => None,
        }
    }

    /// The world in which the command began.
    pub closed spec fn origin(self) -> World {
        self.origin@
    }

    /// The world after the actions whose replies have been used.
    pub closed spec fn world(self) -> World {
        self.world@
    }

    /// Whether the replies that have been used are those of the world.
    pub closed spec fn faithful(self) -> bool {
        self.faithful@
    }

    /// A session without replies, in some world.
    pub fn new() -> (session: Session)
        ensures
            session.replies() == Seq::<(Deed, Reply)>::empty(),
            session.sound(),
            session.used() == 0,
            session.awaited() is None,
            session.faithful(),
            session.world() == session.origin(),
    {
        let ghost world: World = vstd::pervasive::arbitrary();
        let session = Session {
            replies: Vec::new(),
            used: 0,
            awaited: None,
            origin: Ghost(world),
            world: Ghost(world),
            faithful: Ghost(true),
        };
        assert(session.replies() =~= Seq::<(Deed, Reply)>::empty());
        session
    }

    /// Takes the reply to one more action, and goes back to the beginning.
    pub fn answer(&mut self, action: Action, reply: Reply)
        ensures
            final(self).replies() == old(self).replies().push((action@, reply)),
            final(self).sound(),
            final(self).used() == 0,
            final(self).awaited() is None,
            final(self).faithful(),
            final(self).origin() == old(self).origin(),
            final(self).world() == old(self).origin(),
    {
        let ghost before = self.replies();
        let ghost deed = action@;
        self.replies.push((action, reply));
        self.used = 0;
        self.awaited = None;
        self.world = Ghost(self.origin@);
        self.faithful = Ghost(true);
        assert(self.replies() =~= before.push((deed, reply)));
        assert(self.replies().take(0) =~= Seq::<(Deed, Reply)>::empty());
    }

    /// Gives the awaited action out.
    pub fn take_awaited(&mut self) -> (action: Option<Action>)
        ensures
            final(self).replies() == old(self).replies(),
            final(self).origin() == old(self).origin(),
            final(self).world() == old(self).world(),
            final(self).faithful() == old(self).faithful(),
            final(self).used() == old(self).used(),
            old(self).sound() ==> final(self).sound(),
            final(self).awaited() is None,
            match action {
                Some(action) => old(self).awaited() == Some(action@),
                None => old(self).awaited() is None,
            },
    {
        self.awaited.take()
    }

    /// Stops for want of a reply to `action`.
    fn wait(&mut self, action: Action) -> (stop: Stop)
        requires
            old(self).used() >= old(self).replies().len(),
        ensures
            stop is Waiting,
            final(self).replies() == old(self).replies(),
            final(self).origin() == old(self).origin(),
            final(self).world() == old(self).world(),
            final(self).faithful() == old(self).faithful(),
            final(self).used() == old(self).used(),
            old(self).sound() ==> final(self).sound(),
            final(self).awaited() == Some(action@),
    {
        self.awaited = Some(action);
        Stop::Waiting
    }

    /// Ends the session because a reply does not belong to its action.
    fn reject(&mut self) -> (stop: Stop)
        requires
            old(self).used() < old(self).replies().len(),
        ensures
            stop is Failed,
            final(self).replies() == old(self).replies(),
            final(self).origin() == old(self).origin(),
            final(self).world() == old(self).world(),
            old(self).sound() ==> final(self).sound(),
            !final(self).faithful(),
            final(self).used() == old(self).used() + 1,
    {
        assert(self.used < self.replies.len());
        self.used = self.used + 1;
        self.faithful = Ghost(false);
        failed("the reply does not belong to the action".to_owned())
    }

    /// Whether the next reply is one to `action`.
    fn next_is(&self, action: &Action) -> (yes: bool)
        requires
            self.used() < self.replies().len(),
        ensures
            yes == (self.replies()[self.used() as int].0 == action@),
    {
        self.replies[self.used].0.same_as(action)
    }

    /// Counts the next reply as used and goes on to another world.
    fn proceed(&mut self, Ghost(agrees): Ghost<bool>, Ghost(world): Ghost<World>)
        requires
            old(self).used() < old(self).replies().len(),
        ensures
            final(self).replies() == old(self).replies(),
            final(self).origin() == old(self).origin(),
            final(self).world() == world,
            final(self).faithful() == (old(self).faithful() && agrees),
            final(self).used() == old(self).used() + 1,
            ({
                let (deed, reply) = old(self).replies()[old(self).used() as int];
                agrees ==> stepped(old(self).world(), deed, reply) == Some(world)
            }) && old(self).sound() ==> final(self).sound(),
    {
        proof {
            let all = self.replies();
            let at = self.used() as int;
            assert(all.take(at + 1).drop_last() =~= all.take(at));
            assert(all.take(at + 1).last() == all[at]);
        }
        let ghost faithful = self.faithful@ && agrees;
        assert(self.used < self.replies.len());
        self.used = self.used + 1;
        self.faithful = Ghost(faithful);
        self.world = Ghost(world);
    }

    /// Looks what is at `path`.
    pub fn inspect(&mut self, path: &UnixPath) -> (done: Result<Lookup, Stop>)
        ensures
            looked(
                *old(self),
                *final(self),
                told(done),
                seq![Deed::Inspect(path@)],
                Ok::<Sight, Seq<char>>(old(self).world().sight(path@)),
            ),
    {
        proof {
            reveal_with_fuel(walked, 2);
        }
        let action = Action::Inspect(path.copy());
        if self.used >= self.replies.len() {
            return Err(self.wait(action));
        }
        if !self.next_is(&action) {
            return Err(self.reject());
        }
        let found = match &self.replies[self.used].1 {
            Reply::Found(Lookup::Present(entry)) => Lookup::Present(*entry),
            Reply::Found(Lookup::Absent(cause)) => Lookup::Absent(cause.clone()),
            Reply::Found(Lookup::Failed(cause)) => Lookup::Failed(cause.clone()),
            _ => return Err(self.reject()),
        };
        let ghost agrees = found.deep_view() == self.world@.sight(path@);
        self.proceed(Ghost(agrees), Ghost(self.world@));
        Ok(found)
    }

    /// Reads the target of the symbolic link at `path`.
    pub fn read_link(&mut self, path: &UnixPath) -> (done: Result<Attempt<UnixPath>, Stop>)
        ensures
            looked(
                *old(self),
                *final(self),
                told(done),
                seq![Deed::ReadLink(path@)],
                Ok::<Result<Seq<u8>, Seq<char>>, Seq<char>>(old(self).world().target(path@)),
            ),
    {
        proof {
            reveal_with_fuel(walked, 2);
        }
        let action = Action::ReadLink(path.copy());
        if self.used >= self.replies.len() {
            return Err(self.wait(action));
        }
        if !self.next_is(&action) {
            return Err(self.reject());
        }
        let found = match &self.replies[self.used].1 {
            Reply::Target(Attempt::Done(target)) => Attempt::Done(target.copy()),
            Reply::Target(Attempt::Failed(cause)) => Attempt::Failed(cause.clone()),
            _ => return Err(self.reject()),
        };
        let ghost agrees = found.deep_view() == self.world@.target(path@);
        self.proceed(Ghost(agrees), Ghost(self.world@));
        Ok(found)
    }

    /// Reads the text in the file at `path`.
    pub fn read_text(&mut self, path: &UnixPath) -> (done: Result<Attempt<String>, Stop>)
        ensures
            looked(
                *old(self),
                *final(self),
                told(done),
                seq![Deed::ReadText(path@)],
                Ok::<Result<Seq<char>, Seq<char>>, Seq<char>>(old(self).world().text(path@)),
            ),
    {
        proof {
            reveal_with_fuel(walked, 2);
        }
        let action = Action::ReadText(path.copy());
        if self.used >= self.replies.len() {
            return Err(self.wait(action));
        }
        if !self.next_is(&action) {
            return Err(self.reject());
        }
        let found = match &self.replies[self.used].1 {
            Reply::Text(Attempt::Done(text)) => Attempt::Done(text.clone()),
            Reply::Text(Attempt::Failed(cause)) => Attempt::Failed(cause.clone()),
            _ => return Err(self.reject()),
        };
        let ghost agrees = found.deep_view() == self.world@.text(path@);
        self.proceed(Ghost(agrees), Ghost(self.world@));
        Ok(found)
    }

    /// Reads the text with which the file at `path` begins.
    pub fn read_head(&mut self, path: &UnixPath, limit: u64) -> (done: Result<String, Stop>)
        ensures
            looked(
                *old(self),
                *final(self),
                told(done),
                seq![Deed::ReadHead(path@, limit)],
                Ok::<Seq<char>, Seq<char>>(old(self).world().head(path@, limit)),
            ),
    {
        proof {
            reveal_with_fuel(walked, 2);
        }
        let action = Action::ReadHead(path.copy(), limit);
        if self.used >= self.replies.len() {
            return Err(self.wait(action));
        }
        if !self.next_is(&action) {
            return Err(self.reject());
        }
        let found = match &self.replies[self.used].1 {
            Reply::Head(text) => text.clone(),
            _ => return Err(self.reject()),
        };
        let ghost agrees = found@ == self.world@.head(path@, limit);
        self.proceed(Ghost(agrees), Ghost(self.world@));
        Ok(found)
    }

    /// Measures the file at `path`.
    pub fn measure(&mut self, path: &UnixPath) -> (done: Result<Attempt<u64>, Stop>)
        ensures
            looked(
                *old(self),
                *final(self),
                told(done),
                seq![Deed::Measure(path@)],
                Ok::<Result<u64, Seq<char>>, Seq<char>>(old(self).world().size(path@)),
            ),
    {
        proof {
            reveal_with_fuel(walked, 2);
        }
        let action = Action::Measure(path.copy());
        if self.used >= self.replies.len() {
            return Err(self.wait(action));
        }
        if !self.next_is(&action) {
            return Err(self.reject());
        }
        let found: Attempt<u64> = match &self.replies[self.used].1 {
            Reply::Size(Attempt::Done(size)) => Attempt::Done(*size),
            Reply::Size(Attempt::Failed(cause)) => Attempt::Failed(cause.clone()),
            _ => return Err(self.reject()),
        };
        let ghost agrees = found.deep_view() == self.world@.size(path@);
        self.proceed(Ghost(agrees), Ghost(self.world@));
        Ok(found)
    }

    /// Lists the directory at `path`.
    pub fn list(&mut self, path: &UnixPath) -> (done: Result<Listing, Stop>)
        ensures
            looked(
                *old(self),
                *final(self),
                told(done),
                seq![Deed::List(path@)],
                Ok::<Names, Seq<char>>(old(self).world().listing(path@)),
            ),
    {
        proof {
            reveal_with_fuel(walked, 2);
        }
        let action = Action::List(path.copy());
        if self.used >= self.replies.len() {
            return Err(self.wait(action));
        }
        if !self.next_is(&action) {
            return Err(self.reject());
        }
        let found = match &self.replies[self.used].1 {
            Reply::Listed(Listing::Names(names)) => {
                Listing::Names(copied_paths(names))
            },
            Reply::Listed(Listing::Unreadable(cause)) => Listing::Unreadable(cause.clone()),
            Reply::Listed(Listing::Broken(cause)) => Listing::Broken(cause.clone()),
            _ => return Err(self.reject()),
        };
        let ghost agrees = found.deep_view() == self.world@.listing(path@);
        self.proceed(Ghost(agrees), Ghost(self.world@));
        Ok(found)
    }

    /// Runs a program.
    pub fn run(&mut self, command: Command) -> (done: Result<Attempt<Output>, Stop>)
        ensures
            ran(
                *old(self),
                *final(self),
                told(done),
                seq![Deed::Run(command.deep_view())],
                (
                    Ok::<Result<Ending, Seq<char>>, Seq<char>>(
                        old(self).world().run(command.deep_view()).0,
                    ),
                    old(self).world().run(command.deep_view()).1,
                ),
            ),
    {
        proof {
            reveal_with_fuel(walked, 2);
        }
        let action = Action::Run(command);
        if self.used >= self.replies.len() {
            return Err(self.wait(action));
        }
        if !self.next_is(&action) {
            return Err(self.reject());
        }
        let found: Attempt<Output> = match &self.replies[self.used].1 {
            Reply::Ended(Attempt::Done(output)) => Attempt::Done(
                Output {
                    code: output.code,
                    stdout: copied(&output.stdout),
                    stderr: copied(&output.stderr),
                },
            ),
            Reply::Ended(Attempt::Failed(cause)) => Attempt::Failed(cause.clone()),
            _ => return Err(self.reject()),
        };
        let ghost due = self.world@.run(command.deep_view());
        let ghost agrees = found.deep_view() == due.0;
        self.proceed(Ghost(agrees), Ghost(due.1));
        Ok(found)
    }

    /// Reads the clock.
    pub fn clock(&mut self) -> (done: Result<Attempt<u128>, Stop>)
        ensures
            ran(
                *old(self),
                *final(self),
                told(done),
                seq![Deed::Clock],
                (
                    Ok::<Result<u128, Seq<char>>, Seq<char>>(old(self).world().time().0),
                    old(self).world().time().1,
                ),
            ),
    {
        proof {
            reveal_with_fuel(walked, 2);
        }
        let action = Action::Clock;
        if self.used >= self.replies.len() {
            return Err(self.wait(action));
        }
        if !self.next_is(&action) {
            return Err(self.reject());
        }
        let found: Attempt<u128> = match &self.replies[self.used].1 {
            Reply::Time(Attempt::Done(time)) => Attempt::Done(*time),
            Reply::Time(Attempt::Failed(cause)) => Attempt::Failed(cause.clone()),
            _ => return Err(self.reject()),
        };
        let ghost due = self.world@.time();
        let ghost agrees = found.deep_view() == due.0;
        self.proceed(Ghost(agrees), Ghost(due.1));
        Ok(found)
    }

    /// Creates and opens a file that must not exist yet.
    pub fn create_new(&mut self, path: &UnixPath) -> (done: Result<Creation, Stop>)
        ensures
            ran(
                *old(self),
                *final(self),
                told(done),
                seq![Deed::CreateNew(path@)],
                (
                    Ok::<Making, Seq<char>>(old(self).world().create(path@).0),
                    old(self).world().create(path@).1,
                ),
            ),
    {
        proof {
            reveal_with_fuel(walked, 2);
        }
        let action = Action::CreateNew(path.copy());
        if self.used >= self.replies.len() {
            return Err(self.wait(action));
        }
        if !self.next_is(&action) {
            return Err(self.reject());
        }
        let found = match &self.replies[self.used].1 {
            Reply::Opened(Creation::Created) => Creation::Created,
            Reply::Opened(Creation::Exists(cause)) => Creation::Exists(cause.clone()),
            Reply::Opened(Creation::Failed(cause)) => Creation::Failed(cause.clone()),
            _ => return Err(self.reject()),
        };
        let ghost due = self.world@.create(path@);
        let ghost agrees = found.deep_view() == due.0;
        self.proceed(Ghost(agrees), Ghost(due.1));
        Ok(found)
    }

    /// Performs an action that has no other result than to succeed or to fail.
    pub fn attempt(&mut self, action: Action) -> (done: Result<Attempt<()>, Stop>)
        requires
            action@.is_effect(),
        ensures
            ran(
                *old(self),
                *final(self),
                told(done),
                seq![action@],
                (
                    Ok::<Result<(), Seq<char>>, Seq<char>>(old(self).world().attempt(action@).0),
                    old(self).world().attempt(action@).1,
                ),
            ),
    {
        proof {
            reveal_with_fuel(walked, 2);
        }
        if self.used >= self.replies.len() {
            return Err(self.wait(action));
        }
        if !self.next_is(&action) {
            return Err(self.reject());
        }
        let found: Attempt<()> = match &self.replies[self.used].1 {
            Reply::Acted(Attempt::Done(_)) => Attempt::Done(()),
            Reply::Acted(Attempt::Failed(cause)) => Attempt::Failed(cause.clone()),
            _ => return Err(self.reject()),
        };
        let ghost due = self.world@.attempt(action@);
        let ghost agrees = found.deep_view() == due.0;
        self.proceed(Ghost(agrees), Ghost(due.1));
        Ok(found)
    }
}

/// A copy of a list of paths.
pub fn copied_paths(paths: &Vec<UnixPath>) -> (copy: Vec<UnixPath>)
    ensures
        copy.deep_view() == paths.deep_view(),
        copy@.len() == paths@.len(),
{
    let mut copy: Vec<UnixPath> = Vec::new();
    let mut at: usize = 0;
    while at < paths.len()
        invariant
            at <= paths.len(),
            copy.len() == at,
            forall|k: int| 0 <= k < at ==> copy@[k]@ == paths@[k]@,
        decreases paths.len() - at,
    {
        copy.push(paths[at].copy());
        at = at + 1;
    }
    assert(copy.deep_view() =~= paths.deep_view());
    copy
}

impl Command {
    /// The program `name`, without arguments.
    pub fn named(name: &str) -> (command: Command)
        ensures
            command.deep_view() == invocation(encode_utf8(name@)),
    {
        Command::at(&UnixPath::new(name))
    }

    /// The program at `path`, without arguments.
    pub fn at(path: &UnixPath) -> (command: Command)
        ensures
            command.deep_view() == invocation(path@),
    {
        let command = Command { program: path.copy(), arguments: Vec::new(), report: false };
        assert(command.arguments.deep_view() =~= seq![]);
        command
    }

    /// The command with one more argument.
    pub fn arg(self, text: &str) -> (command: Command)
        ensures
            command.deep_view() == self.deep_view().arg(text@),
    {
        self.arg_path(&UnixPath::new(text))
    }

    /// The command with one more argument, a path.
    pub fn arg_path(self, path: &UnixPath) -> (command: Command)
        ensures
            command.deep_view() == self.deep_view().arg_bytes(path@),
    {
        let mut arguments = self.arguments;
        arguments.push(path.copy());
        assert(arguments.deep_view() =~= self.arguments.deep_view().push(path@));
        Command { program: self.program, arguments, report: self.report }
    }

    /// The command with what the program reports going to the terminal.
    pub fn reporting(self) -> (command: Command)
        ensures
            command.deep_view() == (Invocation { report: true, ..self.deep_view() }),
    {
        Command { program: self.program, arguments: self.arguments, report: true }
    }
}

/// A program without arguments.
pub open spec fn invocation(program: Seq<u8>) -> Invocation {
    Invocation { program, arguments: seq![], report: false }
}

impl Invocation {
    /// The program with one more argument.
    pub open spec fn arg(self, text: Seq<char>) -> Invocation {
        self.arg_bytes(encode_utf8(text))
    }

    /// The program with one more argument.
    pub open spec fn arg_bytes(self, bytes: Seq<u8>) -> Invocation {
        Invocation { arguments: self.arguments.push(bytes), ..self }
    }
}

} // verus!
