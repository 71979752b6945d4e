use std::collections::BTreeMap;

use nv::host::{Action, Attempt, Creation, Entry, Listing, Lookup, Output, Reply, Session};
use nv::path::UnixPath;
use nv::programs::Setting;
use nv::run::{advance, Host, Step};

const HOME: &str = "/home/tester";
const STATE: &str = "/home/tester/.local/share/nv";
const LINK: &str = "/home/tester/.local/bin/nvim";

#[derive(Clone, Debug, PartialEq)]
enum Node {
    Directory(u32),
    File(u32, Vec<u8>),
    Link(String),
}

/// A machine in memory, with the programs that nv runs.
struct Machine {
    nodes: BTreeMap<String, Node>,
    output: Vec<String>,
    warnings: Vec<String>,
    release: String,
    ran: Vec<Vec<String>>,
    actions: usize,
    stop_after: usize,
    fails: fn(&Action) -> bool,
    digest: String,
    reported_size: String,
    version: String,
    os: String,
    terminal: bool,
    body: String,
    stray: bool,
}

fn never(_: &Action) -> bool {
    false
}

fn text(path: &UnixPath) -> String {
    String::from_utf8(path.bytes.clone()).unwrap()
}

fn parent(path: &str) -> String {
    match path.rfind('/') {
        Some(0) | None => "/".to_owned(),
        Some(at) => path[..at].to_owned(),
    }
}

impl Machine {
    fn new() -> Machine {
        let mut nodes = BTreeMap::new();
        for path in ["/", "/home", HOME] {
            nodes.insert(path.to_owned(), Node::Directory(0o755));
        }
        Machine {
            nodes,
            output: Vec::new(),
            warnings: Vec::new(),
            release: "100".to_owned(),
            ran: Vec::new(),
            actions: 0,
            stop_after: usize::MAX,
            fails: never,
            digest: "a".repeat(64),
            reported_size: "7".to_owned(),
            version: "NVIM v0.11.0".to_owned(),
            os: "linux".to_owned(),
            terminal: false,
            body: String::new(),
            stray: false,
        }
    }

    fn inside(&self, path: &str) -> Vec<String> {
        let prefix = format!("{path}/");
        self.nodes
            .keys()
            .filter(|key| key.starts_with(&prefix))
            .cloned()
            .collect()
    }

    fn effect(&mut self, action: &Action) -> Attempt<()> {
        let missing = || Attempt::Failed("No such file or directory (os error 2)".to_owned());
        let exists = || Attempt::Failed("File exists (os error 17)".to_owned());
        match action {
            Action::Write(path, contents) => match self.nodes.get_mut(&text(path)) {
                Some(Node::File(_, bytes)) => {
                    bytes.extend_from_slice(contents.as_bytes());
                    Attempt::Done(())
                }
                _ => missing(),
            },
            Action::MakeDirectory(path) => {
                if self.nodes.contains_key(&text(path)) {
                    return exists();
                }
                self.nodes.insert(text(path), Node::Directory(0o755));
                Attempt::Done(())
            }
            Action::MakePrivateDirectories(path) => {
                let mut here = text(path);
                while here != "/" {
                    self.nodes
                        .entry(here.clone())
                        .or_insert(Node::Directory(0o700));
                    here = parent(&here);
                }
                Attempt::Done(())
            }
            Action::Link(target, path) => {
                if self.nodes.contains_key(&text(path)) {
                    return exists();
                }
                self.nodes.insert(text(path), Node::Link(text(target)));
                Attempt::Done(())
            }
            Action::Rename(from, to) => {
                let (from, to) = (text(from), text(to));
                match self.nodes.remove(&from) {
                    None => return missing(),
                    Some(node) => {
                        self.nodes.insert(to.clone(), node);
                    }
                }
                for path in self.inside(&from) {
                    let node = self.nodes.remove(&path).unwrap();
                    self.nodes.insert(format!("{to}{}", &path[from.len()..]), node);
                }
                Attempt::Done(())
            }
            Action::RemoveFile(path) => match self.nodes.remove(&text(path)) {
                Some(_) => Attempt::Done(()),
                None => missing(),
            },
            Action::RemoveTree(path) => {
                if self.nodes.remove(&text(path)).is_none() {
                    return missing();
                }
                for inner in self.inside(&text(path)) {
                    self.nodes.remove(&inner);
                }
                Attempt::Done(())
            }
            Action::Print(line) => {
                self.output.push(line.clone());
                Attempt::Done(())
            }
            Action::Warn(line) => {
                self.warnings.push(line.clone());
                Attempt::Done(())
            }
            _ => Attempt::Done(()),
        }
    }

    fn program(&mut self, program: &str, arguments: &[String]) -> (i32, String) {
        let mut call = vec![program.to_owned()];
        call.extend(arguments.iter().cloned());
        self.ran.push(call);
        if program.ends_with("/bin/nvim") {
            return (0, format!("{}\nBuild type: Release\n", self.version));
        }
        if arguments == ["--version".to_owned()] {
            return (0, format!("{program} 1.0\n"));
        }
        match program {
            "curl" => {
                let at = arguments.iter().position(|word| word == "--output").unwrap();
                let place = arguments[at + 1].clone();
                let contents = if place.ends_with("release.json") {
                    b"{}".to_vec()
                } else {
                    b"archive".to_vec()
                };
                self.nodes.insert(place, Node::File(0o644, contents));
                (0, String::new())
            }
            "jq" => (
                0,
                format!(
                    "{}\nhttps://github.com/neovim/neovim/releases/download/v1/nvim-linux-x86_64.tar.gz\nsha256:{}\n{}\n",
                    self.release, self.digest, self.reported_size
                ),
            ),
            "sha256sum" => (0, format!("{} *archive\n", self.digest)),
            "tar" => {
                let at = arguments
                    .iter()
                    .position(|word| word == "--directory")
                    .unwrap();
                let root = format!("{}/nvim-linux-x86_64", arguments[at + 1]);
                self.nodes.insert(root.clone(), Node::Directory(0o755));
                self.nodes.insert(format!("{root}/bin"), Node::Directory(0o755));
                self.nodes.insert(
                    format!("{root}/bin/nvim"),
                    Node::File(0o755, format!("{}\n", self.release).into_bytes()),
                );
                if self.stray {
                    let place = format!("{}/stray", arguments[at + 1]);
                    self.nodes.insert(place, Node::Directory(0o755));
                }
                (0, String::new())
            }
            other => panic!("unexpected program {other}"),
        }
    }

    fn perform(&mut self, action: &Action) -> Reply {
        let denied = "Permission denied (os error 13)".to_owned();
        let fails = (self.fails)(action);
        match action {
            Action::Inspect(path) => Reply::Found(match self.nodes.get(&text(path)) {
                _ if fails => Lookup::Failed(denied),
                Some(Node::Directory(mode)) => Lookup::Present(Entry::Directory(*mode)),
                Some(Node::File(mode, _)) => Lookup::Present(Entry::File(*mode)),
                Some(Node::Link(_)) => Lookup::Present(Entry::Symlink),
                None => Lookup::Absent("No such file or directory (os error 2)".to_owned()),
            }),
            Action::ReadLink(path) => Reply::Target(match self.nodes.get(&text(path)) {
                Some(Node::Link(target)) if !fails => Attempt::Done(UnixPath::new(target)),
                _ => Attempt::Failed(denied),
            }),
            Action::ReadText(path) => Reply::Text(match self.nodes.get(&text(path)) {
                Some(Node::File(_, bytes)) if !fails => {
                    Attempt::Done(String::from_utf8(bytes.clone()).unwrap())
                }
                _ => Attempt::Failed(denied),
            }),
            Action::ReadHead(path, limit) => Reply::Head(match self.nodes.get(&text(path)) {
                Some(Node::File(_, bytes)) if !fails => {
                    let end = bytes.len().min(*limit as usize);
                    String::from_utf8(bytes[..end].to_vec()).unwrap()
                }
                _ => String::new(),
            }),
            Action::Measure(path) => Reply::Size(match self.nodes.get(&text(path)) {
                Some(Node::File(_, bytes)) if !fails => Attempt::Done(bytes.len() as u64),
                _ => Attempt::Failed(denied),
            }),
            Action::List(path) => {
                let place = text(path);
                Reply::Listed(match self.nodes.get(&place) {
                    Some(Node::Directory(_)) if !fails => Listing::Names(
                        self.inside(&place)
                            .into_iter()
                            .filter(|inner| parent(inner) == place)
                            .map(|inner| UnixPath::new(&inner[place.len() + 1..]))
                            .collect(),
                    ),
                    _ => Listing::Unreadable(denied),
                })
            }
            Action::Run(command) => {
                if fails {
                    if !self.body.is_empty() {
                        let place = format!("{STATE}/staging/stable-42-1700/release.json");
                        let body = self.body.clone().into_bytes();
                        self.nodes.insert(place, Node::File(0o644, body));
                    }
                    return Reply::Ended(Attempt::Done(Output {
                        code: Some(22),
                        stdout: Vec::new(),
                        stderr: b"  the program says no \n".to_vec(),
                    }));
                }
                let arguments: Vec<String> = command.arguments.iter().map(text).collect();
                let (code, stdout) = self.program(&text(&command.program), &arguments);
                Reply::Ended(Attempt::Done(Output {
                    code: Some(code),
                    stdout: stdout.into_bytes(),
                    stderr: Vec::new(),
                }))
            }
            Action::Clock => Reply::Time(if fails {
                Attempt::Failed(denied)
            } else {
                Attempt::Done(1700)
            }),
            Action::CreateNew(path) => Reply::Opened(if fails {
                Creation::Failed(denied)
            } else if self.nodes.contains_key(&text(path)) {
                Creation::Exists("File exists (os error 17)".to_owned())
            } else {
                self.nodes.insert(text(path), Node::File(0o644, Vec::new()));
                Creation::Created
            }),
            other => Reply::Acted(if fails {
                Attempt::Failed(denied)
            } else {
                self.effect(other)
            }),
        }
    }

    /// Runs a command; `None` if it was interrupted.
    fn attempt(&mut self, arguments: &[&str]) -> Option<Result<(), String>> {
        let host = Host {
            os: self.os.clone(),
            arch: "x86_64".to_owned(),
            home: Some(UnixPath::new(HOME)),
            setting: Setting {
                process: 42,
                terminal: self.terminal,
                version: "0.1.0".to_owned(),
            },
        };
        let words: Vec<Vec<u8>> = arguments
            .iter()
            .map(|word| word.as_bytes().to_vec())
            .collect();
        let mut session = Session::new();
        self.actions = 0;
        loop {
            match advance(&mut session, &host, &words) {
                Step::Finished(result) => {
                    return Some(result.map_err(|cause| cause.message().to_owned()));
                }
                Step::Perform(action) => {
                    if self.actions == self.stop_after {
                        return None;
                    }
                    self.actions += 1;
                    let reply = self.perform(&action);
                    session.answer(action, reply);
                }
            }
        }
    }

    fn run(&mut self, arguments: &[&str]) -> Result<(), String> {
        self.attempt(arguments).unwrap()
    }

    fn read(&self, path: &str) -> Option<String> {
        match self.nodes.get(path) {
            Some(Node::File(_, bytes)) => Some(String::from_utf8(bytes.clone()).unwrap()),
            _ => None,
        }
    }

    fn target(&self, path: &str) -> Option<String> {
        match self.nodes.get(path) {
            Some(Node::Link(target)) => Some(target.clone()),
            _ => None,
        }
    }

    /// What the exposed executable prints: the links are followed one by one.
    fn executed(&self) -> String {
        let mut path = LINK.to_owned();
        for _ in 0..20 {
            let mut followed = None;
            let parts: Vec<&str> = path.split('/').skip(1).collect();
            for count in 1..=parts.len() {
                let here = format!("/{}", parts[..count].join("/"));
                if let Some(target) = self.target(&here) {
                    let rest = parts[count..].join("/");
                    followed = Some(format!("{}/{target}/{rest}", parent(&here)));
                    break;
                }
            }
            match followed {
                None => break,
                Some(next) => {
                    let mut clean: Vec<&str> = Vec::new();
                    for part in next.split('/') {
                        match part {
                            "" => {}
                            ".." => {
                                clean.pop();
                            }
                            part => clean.push(part),
                        }
                    }
                    path = format!("/{}", clean.join("/"));
                }
            }
        }
        self.read(&path).unwrap()
    }

    fn installs(&self) -> Vec<String> {
        let place = format!("{STATE}/installs");
        self.inside(&place)
            .into_iter()
            .filter(|path| parent(path) == place)
            .map(|path| path[place.len() + 1..].to_owned())
            .collect()
    }

    fn link(&self, channel: &str, which: &str) -> Option<String> {
        self.target(&format!("{STATE}/channels/{channel}/{which}"))
    }
}

#[test]
fn lifecycle() {
    let mut machine = Machine::new();
    machine.release = "100".to_owned();
    assert!(machine.run(&["use", "stable"]).is_ok());
    assert_eq!(machine.executed(), "100\n");
    machine.release = "101".to_owned();
    assert!(machine.run(&["update"]).is_ok());
    assert_eq!(machine.executed(), "101\n");
    assert!(machine.run(&["rollback", "stable"]).is_ok());
    assert_eq!(machine.executed(), "100\n");
    assert!(machine.run(&["remove"]).is_ok());
    assert!(!machine.nodes.contains_key(LINK));
}

#[test]
fn first_installation_leaves_exactly_its_files() {
    let mut machine = Machine::new();
    machine.run(&["install", "stable"]).unwrap();
    assert_eq!(
        machine.output,
        ["installed stable NVIM v0.11.0 (release 100)"]
    );
    assert_eq!(machine.installs(), ["stable-100"]);
    assert_eq!(
        machine.read(&format!("{STATE}/installs/stable-100/.nv-metadata")),
        Some(format!(
            "channel=stable\nrelease=100\nversion=NVIM v0.11.0\nasset=nvim-linux-x86_64.tar.gz\nsha256={}\n",
            "a".repeat(64)
        ))
    );
    assert_eq!(
        machine.link("stable", "current"),
        Some("../../installs/stable-100".to_owned())
    );
    assert_eq!(machine.link("stable", "previous"), None);
    assert_eq!(machine.inside(&format!("{STATE}/staging")), Vec::<String>::new());
    assert_eq!(machine.inside(&format!("{STATE}/channels/nightly")), Vec::<String>::new());
    assert!(!machine.nodes.contains_key(&format!("{STATE}/operation.lock")));
    assert!(!machine.nodes.contains_key(&format!("{STATE}/pointer.transaction")));
    assert!(!machine.nodes.contains_key(LINK));
    assert_eq!(machine.nodes[STATE], Node::Directory(0o700));
}

#[test]
fn use_in_a_fresh_home_selects_the_release() {
    let mut machine = Machine::new();
    machine.release = "314".to_owned();
    machine.run(&["use", "nightly"]).unwrap();
    assert_eq!(
        machine.link("nightly", "current"),
        Some("../../installs/nightly-314".to_owned())
    );
    assert_eq!(machine.link("nightly", "previous"), None);
    assert_eq!(
        machine.target(&format!("{STATE}/active")),
        Some("channels/nightly/current".to_owned())
    );
    assert_eq!(machine.executed(), "314\n");
    assert_eq!(machine.installs(), ["nightly-314"]);
    assert!(!machine.nodes.contains_key(&format!("{STATE}/operation.lock")));
}

#[test]
fn removal_leaves_only_selected_releases() {
    let mut machine = Machine::new();
    machine.run(&["install", "stable"]).unwrap();
    machine.run(&["install", "nightly"]).unwrap();
    machine.release = "101".to_owned();
    machine.run(&["update"]).unwrap();
    assert_eq!(
        machine.installs(),
        ["nightly-100", "nightly-101", "stable-100", "stable-101"]
    );
    machine.run(&["remove", "nightly"]).unwrap();
    assert_eq!(machine.installs(), ["stable-100", "stable-101"]);
    machine.run(&["remove"]).unwrap();
    assert_eq!(machine.installs(), Vec::<String>::new());
}

#[test]
fn download_is_asked_for_with_exact_arguments() {
    let mut machine = Machine::new();
    machine.terminal = true;
    machine.run(&["install", "nightly"]).unwrap();
    let staging = format!("{STATE}/staging/nightly-42-1700");
    let words = |text: String| -> Vec<String> { text.split(' ').map(str::to_owned).collect() };
    let downloads: Vec<&Vec<String>> = machine
        .ran
        .iter()
        .filter(|call| call[0] == "curl" && call.len() > 2)
        .collect();
    assert_eq!(downloads.len(), 2);
    let mut description = words(
        "curl --show-error --fail-with-body --location --proto =https --proto-redir =https --connect-timeout 15 --max-time 60 --max-filesize 10485760 --header".to_owned(),
    );
    description.push("User-Agent: nv/0.1.0".to_owned());
    description.extend(words(format!("--output {staging}/release.json --silent --header")));
    description.push("Accept: application/vnd.github+json".to_owned());
    description.push("--header".to_owned());
    description.push("X-GitHub-Api-Version: 2026-03-10".to_owned());
    description.push("https://api.github.com/repos/neovim/neovim/releases/tags/nightly".to_owned());
    assert_eq!(*downloads[0], description);
    let mut archive = words(
        "curl --show-error --fail-with-body --location --proto =https --proto-redir =https --connect-timeout 15 --max-time 600 --max-filesize 7 --header".to_owned(),
    );
    archive.push("User-Agent: nv/0.1.0".to_owned());
    archive.extend(words(format!(
        "--output {staging}/nvim-linux-x86_64.tar.gz.part --progress-bar https://github.com/neovim/neovim/releases/download/v1/nvim-linux-x86_64.tar.gz"
    )));
    assert_eq!(*downloads[1], archive);
    let tar: Vec<&Vec<String>> = machine
        .ran
        .iter()
        .filter(|call| call[0] == "tar" && call.len() > 2)
        .collect();
    assert_eq!(
        *tar[0],
        words(format!(
            "tar --extract --gzip --file {staging}/nvim-linux-x86_64.tar.gz.part --directory {staging}/extracted --no-same-owner --no-same-permissions"
        ))
    );
}

#[test]
fn installation_keeps_the_channel_in_use() {
    let mut machine = Machine::new();
    machine.run(&["use", "stable"]).unwrap();
    let active = machine.target(&format!("{STATE}/active"));
    assert_eq!(active, Some("channels/stable/current".to_owned()));
    machine.release = "200".to_owned();
    machine.run(&["install", "nightly"]).unwrap();
    assert_eq!(machine.target(&format!("{STATE}/active")), active);
    assert_eq!(
        machine.target(LINK),
        Some("../share/nv/active/bin/nvim".to_owned())
    );
    assert_eq!(machine.executed(), "100\n");
    assert_eq!(machine.installs(), ["nightly-200", "stable-100"]);
}

#[test]
fn installed_channel_is_not_installed_again() {
    let mut machine = Machine::new();
    machine.run(&["install", "stable"]).unwrap();
    let nodes = machine.nodes.clone();
    machine.release = "101".to_owned();
    machine.output.clear();
    machine.run(&["install", "stable"]).unwrap();
    assert_eq!(machine.nodes, nodes);
    assert_eq!(
        machine.output,
        ["stable is already installed: NVIM v0.11.0 (release 100)"]
    );
}

#[test]
fn use_never_updates() {
    let mut machine = Machine::new();
    machine.run(&["install", "stable"]).unwrap();
    machine.release = "101".to_owned();
    machine.output.clear();
    machine.run(&["use", "stable"]).unwrap();
    assert_eq!(machine.executed(), "100\n");
    assert_eq!(machine.installs(), ["stable-100"]);
    assert_eq!(
        machine.output,
        [
            "stable is already installed: NVIM v0.11.0 (release 100)",
            "using stable NVIM v0.11.0 (release 100)"
        ]
    );
}

#[test]
fn update_retains_one_previous_release() {
    let mut machine = Machine::new();
    machine.run(&["install", "stable"]).unwrap();
    machine.release = "101".to_owned();
    machine.run(&["update", "stable"]).unwrap();
    assert_eq!(
        machine.link("stable", "previous"),
        Some("../../installs/stable-100".to_owned())
    );
    machine.release = "102".to_owned();
    machine.run(&["update"]).unwrap();
    assert_eq!(
        machine.link("stable", "current"),
        Some("../../installs/stable-102".to_owned())
    );
    assert_eq!(
        machine.link("stable", "previous"),
        Some("../../installs/stable-101".to_owned())
    );
    assert_eq!(machine.installs(), ["stable-101", "stable-102"]);
}

#[test]
fn update_of_the_current_release_changes_nothing() {
    let mut machine = Machine::new();
    machine.run(&["install", "nightly"]).unwrap();
    let nodes = machine.nodes.clone();
    machine.output.clear();
    machine.run(&["update"]).unwrap();
    assert_eq!(machine.nodes, nodes);
    assert_eq!(
        machine.output,
        ["nightly is already current: NVIM v0.11.0 (release 100)"]
    );
}

#[test]
fn update_wants_an_installed_channel() {
    let mut machine = Machine::new();
    assert_eq!(
        machine.run(&["update"]),
        Err(format!(
            "nv state directory {STATE} does not exist; install a channel first"
        ))
    );
    machine.run(&["install", "stable"]).unwrap();
    assert_eq!(
        machine.run(&["update", "nightly"]),
        Err("nightly is not installed; run 'nv install nightly' first".to_owned())
    );
    machine.run(&["remove"]).unwrap();
    assert_eq!(
        machine.run(&["update"]),
        Err(
            "no channels are installed; run 'nv install stable' or 'nv install nightly' first"
                .to_owned()
        )
    );
}

#[test]
fn second_rollback_takes_the_first_back() {
    let mut machine = Machine::new();
    machine.run(&["install", "stable"]).unwrap();
    assert_eq!(
        machine.run(&["rollback", "stable"]),
        Err("cannot roll back stable: no previous installation exists".to_owned())
    );
    assert_eq!(
        machine.run(&["rollback", "nightly"]),
        Err("cannot roll back nightly: channel is not installed".to_owned())
    );
    machine.release = "101".to_owned();
    machine.run(&["update"]).unwrap();
    let nodes = machine.nodes.clone();
    machine.output.clear();
    machine.run(&["rollback", "stable"]).unwrap();
    assert_eq!(
        machine.output,
        ["rolled back stable to NVIM v0.11.0 (release 100)"]
    );
    assert_eq!(
        machine.link("stable", "current"),
        Some("../../installs/stable-100".to_owned())
    );
    assert_eq!(
        machine.link("stable", "previous"),
        Some("../../installs/stable-101".to_owned())
    );
    machine.run(&["rollback", "stable"]).unwrap();
    assert_eq!(machine.nodes, nodes);
}

#[test]
fn removal_of_the_channel_in_use_removes_the_executable() {
    let mut machine = Machine::new();
    machine.run(&["install", "nightly"]).unwrap();
    machine.run(&["use", "stable"]).unwrap();
    machine.output.clear();
    machine.run(&["remove", "stable"]).unwrap();
    assert_eq!(machine.output, ["removed stable"]);
    assert!(!machine.nodes.contains_key(LINK));
    assert!(!machine.nodes.contains_key(&format!("{STATE}/active")));
    assert_eq!(machine.installs(), ["nightly-100"]);
    assert_eq!(
        machine.run(&["remove", "stable"]),
        Err("stable is not installed".to_owned())
    );
}

#[test]
fn removal_of_another_channel_keeps_the_executable() {
    let mut machine = Machine::new();
    machine.run(&["install", "nightly"]).unwrap();
    machine.run(&["use", "stable"]).unwrap();
    machine.run(&["remove", "nightly"]).unwrap();
    assert_eq!(machine.executed(), "100\n");
    assert_eq!(machine.installs(), ["stable-100"]);
    machine.output.clear();
    machine.run(&["remove"]).unwrap();
    assert_eq!(machine.output, ["removed stable"]);
    assert_eq!(
        machine.run(&["remove"]),
        Err("no channels are installed".to_owned())
    );
}

#[test]
fn foreign_executable_is_refused_and_kept() {
    for foreign in [
        Node::File(0o755, b"mine".to_vec()),
        Node::Link("/usr/bin/nvim".to_owned()),
    ] {
        let mut machine = Machine::new();
        machine
            .nodes
            .insert("/home/tester/.local".to_owned(), Node::Directory(0o755));
        machine
            .nodes
            .insert("/home/tester/.local/bin".to_owned(), Node::Directory(0o755));
        machine.nodes.insert(LINK.to_owned(), foreign.clone());
        let refusal = match &foreign {
            Node::Link(target) => {
                format!("executable symlink {LINK} has unmanaged target {target}")
            }
            _ => format!("executable path {LINK} is not nv's managed symlink"),
        };
        assert_eq!(machine.run(&["use", "stable"]), Err(refusal));
        assert_eq!(machine.nodes[LINK], foreign);
        assert_eq!(machine.installs(), Vec::<String>::new());
        machine.run(&["install", "stable"]).unwrap();
        machine.run(&["remove"]).unwrap();
        assert_eq!(machine.nodes[LINK], foreign);
    }
}

#[test]
fn status_shows_what_is_installed() {
    let mut machine = Machine::new();
    machine.run(&["status"]).unwrap();
    assert_eq!(
        machine.output,
        [
            "active: none",
            "stable current: none",
            "stable previous: none",
            "nightly current: none",
            "nightly previous: none"
        ]
    );
    machine.run(&["use", "nightly"]).unwrap();
    machine.release = "101".to_owned();
    machine.run(&["update"]).unwrap();
    let nodes = machine.nodes.clone();
    machine.output.clear();
    machine.run(&["status"]).unwrap();
    assert_eq!(
        machine.output,
        [
            "active: nightly",
            "stable current: none",
            "stable previous: none",
            "nightly current: release=101 version=NVIM v0.11.0",
            "nightly previous: release=100 version=NVIM v0.11.0"
        ]
    );
    assert_eq!(machine.nodes, nodes);
}

#[test]
fn held_lock_keeps_operations_out() {
    let mut machine = Machine::new();
    machine.run(&["install", "stable"]).unwrap();
    machine.nodes.insert(
        format!("{STATE}/operation.lock"),
        Node::File(0o644, b"pid=7\n".to_vec()),
    );
    let nodes = machine.nodes.clone();
    for arguments in [
        vec!["install", "nightly"],
        vec!["use", "stable"],
        vec!["update"],
        vec!["remove"],
        vec!["rollback", "stable"],
        vec!["status"],
    ] {
        assert_eq!(
            machine.run(&arguments),
            Err(format!(
                "another nv operation is active, or a previous operation was interrupted: {STATE}/operation.lock exists; once no nv process is running, inspect it and move it to the trash manually"
            ))
        );
        assert_eq!(machine.nodes, nodes);
    }
}

#[test]
fn interrupted_rollback_is_recovered() {
    let mut prepared = Machine::new();
    prepared.run(&["install", "stable"]).unwrap();
    prepared.release = "101".to_owned();
    prepared.run(&["update"]).unwrap();
    let (mut back, mut forward) = (0, 0);
    for moment in 0..1000 {
        let mut machine = Machine::new();
        machine.nodes = prepared.nodes.clone();
        machine.stop_after = moment;
        let done = machine.attempt(&["rollback", "stable"]);
        machine.stop_after = usize::MAX;
        machine.nodes.remove(&format!("{STATE}/operation.lock"));
        machine.output.clear();
        machine.run(&["status"]).unwrap();
        let current = machine.link("stable", "current").unwrap();
        let previous = machine.link("stable", "previous").unwrap();
        if current == "../../installs/stable-101" {
            assert_eq!(previous, "../../installs/stable-100");
            back += 1;
        } else {
            assert_eq!(current, "../../installs/stable-100");
            assert_eq!(previous, "../../installs/stable-101");
            forward += 1;
        }
        assert_eq!(
            machine.inside(STATE).len(),
            prepared.inside(STATE).len(),
            "something is left of the interrupted change"
        );
        if done.is_some() {
            assert_eq!(done, Some(Ok(())));
            break;
        }
    }
    assert!(back > 5 && forward > 5);
}

#[test]
fn failed_download_leaves_no_staging_directory() {
    let mut machine = Machine::new();
    machine.fails = |action| match action {
        Action::Run(command) => {
            command.program.bytes == b"curl" && command.arguments.len() > 1
        }
        _ => false,
    };
    let response = format!("{STATE}/staging/stable-42-1700/release.json");
    assert_eq!(
        machine.run(&["install", "stable"]),
        Err(format!(
            "external program 'curl' failed during HTTPS download for {response} with status 22: the program says no"
        ))
    );
    assert_eq!(machine.inside(&format!("{STATE}/staging")), Vec::<String>::new());
    assert_eq!(machine.installs(), Vec::<String>::new());
    assert!(!machine.nodes.contains_key(&format!("{STATE}/operation.lock")));
}

#[test]
fn archive_must_be_what_was_announced() {
    let mut machine = Machine::new();
    machine.reported_size = "8".to_owned();
    let archive = format!("{STATE}/staging/stable-42-1700/nvim-linux-x86_64.tar.gz.part");
    assert_eq!(
        machine.run(&["install", "stable"]),
        Err(format!(
            "downloaded archive size mismatch at {archive}: expected 8 bytes, got 7"
        ))
    );
    machine.reported_size = "7".to_owned();
    machine.version = "VIM 9".to_owned();
    let staged = format!("{STATE}/staging/stable-42-1700/extracted/nvim-linux-x86_64/bin/nvim");
    assert_eq!(
        machine.run(&["install", "stable"]),
        Err(format!(
            "invalid Neovim version 'VIM 9' at {staged}: expected the first --version line to start with 'NVIM v'"
        ))
    );
    assert_eq!(machine.inside(&format!("{STATE}/staging")), Vec::<String>::new());
}

#[test]
fn conflicting_release_is_refused() {
    let mut machine = Machine::new();
    machine.run(&["install", "stable"]).unwrap();
    machine.digest = "b".repeat(64);
    assert_eq!(
        machine.run(&["update"]),
        Err(format!(
            "immutable installation path {STATE}/installs/stable-100 conflicts with release 100; inspect it manually"
        ))
    );
}

#[test]
fn release_that_is_already_there_is_not_downloaded() {
    let mut machine = Machine::new();
    machine.run(&["install", "stable"]).unwrap();
    machine.release = "101".to_owned();
    machine.run(&["update"]).unwrap();
    machine.ran.clear();
    machine.release = "100".to_owned();
    machine.run(&["update"]).unwrap();
    assert!(!machine.ran.iter().any(|call| call[0] == "tar" && call.len() > 2));
    assert_eq!(
        machine.link("stable", "current"),
        Some("../../installs/stable-100".to_owned())
    );
    assert_eq!(
        machine.link("stable", "previous"),
        Some("../../installs/stable-101".to_owned())
    );
}

#[test]
fn failed_cleanup_is_only_reported() {
    let mut machine = Machine::new();
    machine.fails = |action| matches!(action, Action::RemoveTree(_));
    machine.run(&["install", "stable"]).unwrap();
    assert_eq!(
        machine.warnings,
        [format!(
            "nv: warning: installation committed, but staging cleanup failed: failed to remove staging directory {STATE}/staging/stable-42-1700: Permission denied (os error 13)"
        )]
    );
    assert_eq!(
        machine.output,
        ["installed stable NVIM v0.11.0 (release 100)"]
    );
    assert_eq!(
        machine.run(&["update"]),
        Err(format!(
            "staging directory {STATE}/staging is not empty; inspect its contents and move stale data to the trash manually"
        ))
    );
}

#[test]
fn unmanaged_entry_stops_the_cleanup() {
    let mut machine = Machine::new();
    machine.run(&["install", "stable"]).unwrap();
    machine
        .nodes
        .insert(format!("{STATE}/installs/notes"), Node::Directory(0o755));
    machine.release = "101".to_owned();
    machine.run(&["update"]).unwrap();
    assert_eq!(
        machine.warnings,
        ["nv: warning: installation committed, but cleanup failed: unmanaged installation name 'notes'; expected stable-<release-id> or nightly-<release-id>"]
    );
    assert_eq!(machine.installs(), ["notes", "stable-100", "stable-101"]);
}

#[test]
fn lock_that_cannot_be_removed_is_reported() {
    let mut machine = Machine::new();
    machine.run(&["install", "stable"]).unwrap();
    machine.fails = |action| match action {
        Action::RemoveFile(path) => path.bytes.ends_with(b"operation.lock"),
        _ => false,
    };
    let unlock = format!(
        "operation completed but failed to remove lock {STATE}/operation.lock: Permission denied (os error 13)"
    );
    assert_eq!(machine.run(&["status"]), Err(unlock.clone()));
    machine.nodes.remove(&format!("{STATE}/operation.lock"));
    assert_eq!(
        machine.run(&["rollback", "nightly"]),
        Err(format!(
            "cannot roll back nightly: channel is not installed; additionally, {unlock}"
        ))
    );
}

#[test]
fn unsafe_state_directory_is_refused() {
    let mut machine = Machine::new();
    machine.run(&["install", "stable"]).unwrap();
    machine.nodes.insert(STATE.to_owned(), Node::Directory(0o722));
    assert_eq!(
        machine.run(&["status"]),
        Err(format!(
            "refusing writable-by-group-or-others directory {STATE}; remove group/other write permissions"
        ))
    );
    machine.nodes.insert(STATE.to_owned(), Node::File(0o600, Vec::new()));
    assert_eq!(
        machine.run(&["rollback", "stable"]),
        Err(format!(
            "expected a real directory at {STATE}, found another file type"
        ))
    );
}

#[test]
fn incomplete_layout_is_refused() {
    let mut machine = Machine::new();
    machine.run(&["install", "stable"]).unwrap();
    machine.nodes.remove(&format!("{STATE}/staging"));
    let missing = format!(
        "required state directory {STATE}/staging is missing or inaccessible: No such file or directory (os error 2)"
    );
    assert_eq!(machine.run(&["install", "stable"]), Err(missing.clone()));
    assert_eq!(machine.run(&["status"]), Err(missing));
}

#[test]
fn damaged_channel_state_is_refused() {
    let mut machine = Machine::new();
    machine.run(&["install", "stable"]).unwrap();
    let current = format!("{STATE}/channels/stable/current");
    let previous = format!("{STATE}/channels/stable/previous");
    let good = machine.nodes[&current].clone();
    machine.nodes.insert(previous.clone(), good.clone());
    assert_eq!(
        machine.run(&["status"]),
        Err(format!(
            "malformed stable channel state at {STATE}/channels/stable: current and previous point to {STATE}/installs/stable-100"
        ))
    );
    machine.nodes.remove(&current);
    assert_eq!(
        machine.run(&["status"]),
        Err(format!(
            "malformed stable channel state at {STATE}/channels/stable: previous exists without current"
        ))
    );
    machine.nodes.remove(&previous);
    machine.nodes.insert(current.clone(), Node::Link("/elsewhere".to_owned()));
    assert_eq!(
        machine.run(&["status"]),
        Err(format!(
            "channel pointer {current} has unmanaged target /elsewhere; expected ../../installs/stable-<release-id>"
        ))
    );
    machine.nodes.insert(current.clone(), Node::File(0o644, Vec::new()));
    assert_eq!(
        machine.run(&["status"]),
        Err(format!("channel pointer {current} is not a symlink"))
    );
    machine.nodes.insert(current, good);
    machine.nodes.insert(
        format!("{STATE}/installs/stable-100/bin/nvim"),
        Node::File(0o644, Vec::new()),
    );
    assert_eq!(
        machine.run(&["status"]),
        Err(format!(
            "required Neovim executable {STATE}/installs/stable-100/bin/nvim is not executable"
        ))
    );
}

#[test]
fn pending_change_of_another_kind_is_refused() {
    let mut machine = Machine::new();
    machine.run(&["install", "stable"]).unwrap();
    let note = format!("{STATE}/pointer.transaction");
    machine.nodes.insert(note.clone(), Node::Directory(0o700));
    assert_eq!(
        machine.run(&["status"]),
        Err(format!("pointer transaction {note} is not a regular file"))
    );
    machine
        .nodes
        .insert(note.clone(), Node::File(0o600, b"stable\nstable-100\n".to_vec()));
    assert_eq!(
        machine.run(&["status"]),
        Err(format!(
            "malformed pointer transaction at {note}: expected exactly 3 lines"
        ))
    );
    machine.nodes.insert(
        note.clone(),
        Node::File(0o600, b"stable\nstable-999\nnone\n".to_vec()),
    );
    assert_eq!(
        machine.run(&["status"]),
        Err(format!(
            "managed installation {STATE}/installs/stable-999 is missing or inaccessible: No such file or directory (os error 2)"
        ))
    );
}

#[test]
fn platform_and_programs_are_checked_first() {
    let mut machine = Machine::new();
    machine.os = "macos".to_owned();
    assert_eq!(
        machine.run(&["status"]),
        Err("unsupported platform macos x86_64; nv supports only Linux x86_64".to_owned())
    );
    machine.run(&["help"]).unwrap();
    assert!(machine.output[0].starts_with("Usage:\n  nv install stable|nightly\n"));
    machine.os = "linux".to_owned();
    machine.fails = |action| match action {
        Action::Run(command) => command.program.bytes == b"sha256sum",
        _ => false,
    };
    assert_eq!(
        machine.run(&["install", "stable"]),
        Err(
            "external program 'sha256sum' failed during version check with status 22: the program says no"
                .to_owned()
        )
    );
    assert!(!machine.nodes.contains_key(STATE));
}

#[test]
fn home_directory_is_wanted() {
    for (home, message) in [
        (None, "HOME is not set".to_owned()),
        (Some(""), "HOME is empty".to_owned()),
        (Some("here"), "HOME must be an absolute path, got here".to_owned()),
    ] {
        let host = Host {
            os: "linux".to_owned(),
            arch: "x86_64".to_owned(),
            home: home.map(UnixPath::new),
            setting: Setting {
                process: 1,
                terminal: false,
                version: "0".to_owned(),
            },
        };
        let mut session = Session::new();
        match advance(&mut session, &host, &vec![b"status".to_vec()]) {
            Step::Finished(Err(cause)) => assert_eq!(cause.message(), message),
            _ => panic!("the home directory was accepted"),
        }
    }
}

#[test]
fn reply_to_another_action_is_rejected() {
    let host = Host {
        os: "linux".to_owned(),
        arch: "x86_64".to_owned(),
        home: Some(UnixPath::new(HOME)),
        setting: Setting {
            process: 1,
            terminal: false,
            version: "0".to_owned(),
        },
    };
    let mut session = Session::new();
    let words = vec![b"status".to_vec()];
    assert!(matches!(
        advance(&mut session, &host, &words),
        Step::Perform(Action::Inspect(_))
    ));
    session.answer(
        Action::Inspect(UnixPath::new("/elsewhere")),
        Reply::Found(Lookup::Present(Entry::Directory(0o700))),
    );
    match advance(&mut session, &host, &words) {
        Step::Finished(Err(cause)) => {
            assert_eq!(cause.message(), "the reply does not belong to the action")
        }
        _ => panic!("the reply was accepted"),
    }
}

#[test]
fn failed_download_shows_the_response() {
    let mut machine = Machine::new();
    machine.body = format!(" rate limit\n{}", "x".repeat(5000));
    machine.fails = |action| match action {
        Action::Run(command) => {
            command.program.bytes == b"curl" && command.arguments.len() > 1
        }
        _ => false,
    };
    let response = format!("{STATE}/staging/stable-42-1700/release.json");
    assert_eq!(
        machine.run(&["install", "stable"]),
        Err(format!(
            "external program 'curl' failed during HTTPS download for {response} with status 22: the program says no; response body: rate limit\n{}",
            "x".repeat(4084)
        ))
    );
}

#[test]
fn archive_must_hold_one_directory() {
    let mut machine = Machine::new();
    machine.stray = true;
    assert_eq!(
        machine.run(&["install", "stable"]),
        Err(format!(
            "unexpected archive layout in {STATE}/staging/stable-42-1700/extracted: expected exactly one top-level directory named nvim-linux-x86_64"
        ))
    );
    assert_eq!(machine.installs(), Vec::<String>::new());
}

#[test]
fn damaged_link_of_the_channel_in_use_is_refused() {
    let mut machine = Machine::new();
    machine.run(&["use", "stable"]).unwrap();
    let active = format!("{STATE}/active");
    let good = machine.nodes[&active].clone();
    machine.nodes.insert(active.clone(), Node::File(0o644, Vec::new()));
    assert_eq!(
        machine.run(&["status"]),
        Err(format!("active channel path {active} is not a symlink"))
    );
    machine.nodes.insert(active.clone(), Node::Link("/elsewhere".to_owned()));
    assert_eq!(
        machine.run(&["remove"]),
        Err(format!(
            "active channel link {active} has unmanaged target /elsewhere"
        ))
    );
    machine
        .nodes
        .insert(active.clone(), Node::Link("channels/nightly/current".to_owned()));
    assert_eq!(
        machine.run(&["status"]),
        Err(format!(
            "active channel link {active} points to uninstalled nightly channel"
        ))
    );
    machine.nodes.insert(active, good);
    machine.nodes.remove(LINK);
    assert_eq!(
        machine.run(&["status"]),
        Err(format!(
            "active channel exists but executable link {LINK} is missing or inaccessible: No such file or directory (os error 2)"
        ))
    );
}

#[test]
fn foreign_temporary_link_is_refused() {
    let mut machine = Machine::new();
    machine.run(&["install", "stable"]).unwrap();
    machine.release = "101".to_owned();
    machine.run(&["update"]).unwrap();
    let draft = format!("{STATE}/channels/stable/.previous.nv-new");
    machine.nodes.insert(draft.clone(), Node::Link("/elsewhere".to_owned()));
    assert_eq!(
        machine.run(&["rollback", "stable"]),
        Err(format!(
            "temporary link {draft} does not match the pending transaction"
        ))
    );
    machine.nodes.remove(&draft);
    machine.run(&["status"]).unwrap();
    assert_eq!(
        machine.link("stable", "current"),
        Some("../../installs/stable-100".to_owned())
    );
    assert!(!machine.nodes.contains_key(&format!("{STATE}/pointer.transaction")));
}

#[test]
fn metadata_must_belong_to_its_directory() {
    let mut machine = Machine::new();
    machine.run(&["install", "stable"]).unwrap();
    let place = format!("{STATE}/installs/stable-100/.nv-metadata");
    let text = machine.read(&place).unwrap().replace("release=100", "release=7");
    machine.nodes.insert(place.clone(), Node::File(0o644, text.into_bytes()));
    assert_eq!(
        machine.run(&["status"]),
        Err(format!(
            "metadata {place} does not match installation directory stable-100"
        ))
    );
}

#[test]
fn output_that_cannot_be_written_is_reported() {
    let mut machine = Machine::new();
    machine.fails = |action| matches!(action, Action::Print(_));
    assert_eq!(
        machine.run(&["help"]),
        Err("failed printing to stdout: Permission denied (os error 13)".to_owned())
    );
}

#[test]
fn interrupted_update_of_one_channel_spares_the_other() {
    let mut prepared = Machine::new();
    prepared.run(&["install", "nightly"]).unwrap();
    prepared.run(&["install", "stable"]).unwrap();
    prepared.release = "101".to_owned();
    prepared.run(&["update", "stable"]).unwrap();
    for moment in 0..200 {
        let mut machine = Machine::new();
        machine.nodes = prepared.nodes.clone();
        machine.stop_after = moment;
        machine.attempt(&["rollback", "stable"]);
        machine.stop_after = usize::MAX;
        machine.nodes.remove(&format!("{STATE}/operation.lock"));
        machine.run(&["status"]).unwrap();
        let once = machine.nodes.clone();
        assert_eq!(
            machine.link("nightly", "current"),
            prepared.link("nightly", "current")
        );
        machine.run(&["status"]).unwrap();
        assert_eq!(machine.nodes, once);
    }
}

#[test]
fn pending_change_blocks_another_one() {
    let mut machine = Machine::new();
    machine.run(&["install", "stable"]).unwrap();
    machine.release = "101".to_owned();
    machine.run(&["update"]).unwrap();
    let nodes = machine.nodes.clone();
    machine.fails = |action| match action {
        Action::RemoveFile(path) => path.bytes.ends_with(b".pointer.transaction.nv-new"),
        _ => false,
    };
    let draft = format!("{STATE}/.pointer.transaction.nv-new");
    machine.nodes.insert(draft.clone(), Node::File(0o600, Vec::new()));
    assert_eq!(
        machine.run(&["rollback", "stable"]),
        Err(format!(
            "failed to remove unpublished pointer transaction {draft}: Permission denied (os error 13)"
        ))
    );
    machine.nodes.remove(&draft);
    assert_eq!(machine.nodes, nodes);
}

#[test]
fn failed_update_keeps_what_is_selected() {
    let mut machine = Machine::new();
    machine.run(&["use", "stable"]).unwrap();
    let nodes = machine.nodes.clone();
    machine.release = "101".to_owned();
    for fails in [
        |action: &Action| matches!(action, Action::Clock),
        |action: &Action| matches!(action, Action::Measure(_)),
        |action: &Action| matches!(action, Action::Flush(_)),
        |action: &Action| match action {
            Action::Rename(_, to) => to.bytes.ends_with(b"stable-101"),
            _ => false,
        },
    ] {
        machine.fails = fails;
        let done = machine.run(&["update"]);
        machine.fails = never;
        if done.is_ok() {
            panic!("the update succeeded");
        }
        assert_eq!(machine.nodes, nodes);
    }
}

#[test]
fn failed_replacement_of_a_link_keeps_it() {
    let mut machine = Machine::new();
    machine.run(&["install", "stable"]).unwrap();
    machine.release = "101".to_owned();
    machine.run(&["update"]).unwrap();
    machine.fails = |action| match action {
        Action::Rename(_, to) => to.bytes.ends_with(b"/previous"),
        _ => false,
    };
    let link = format!("{STATE}/channels/stable/previous");
    assert_eq!(
        machine.run(&["rollback", "stable"]),
        Err(format!(
            "failed to atomically replace symlink {link} -> ../../installs/stable-101: Permission denied (os error 13)"
        ))
    );
    assert_eq!(
        machine.link("stable", "previous"),
        Some("../../installs/stable-100".to_owned())
    );
    assert_eq!(
        machine.link("stable", "current"),
        Some("../../installs/stable-101".to_owned())
    );
}
