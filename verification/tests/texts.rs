use nv::channel::{Channel, ChannelSelection};
use nv::cli::Cli;
use nv::encoding::{decode, decode_lossy};
use nv::installation::validate_channel_target;
use nv::metadata::InstallMetadata;
use nv::path::UnixPath;
use nv::programs::{check_digest, command_failure, parse_release, parse_version};
use nv::release::{validate_download_url, validate_release_id, validate_sha256, validate_version};
use nv::text::{
    decimal_of, leading_word, parse_number, signed_decimal_of, split_lines, split_once, trim,
    NumberFault,
};
use nv::transaction::PointerTransaction;

fn words(list: &[&str]) -> Vec<Vec<u8>> {
    list.iter().map(|word| word.as_bytes().to_vec()).collect()
}

fn refused(list: &[&str]) -> String {
    Cli::parse(&words(list)).unwrap_err().message().to_owned()
}

fn digest(character: char) -> String {
    std::iter::repeat(character).take(64).collect()
}

fn metadata() -> InstallMetadata {
    InstallMetadata {
        channel: Channel::Nightly,
        release: "123456".to_owned(),
        version: "NVIM v0.13.0-dev-1234+gabcdef123".to_owned(),
        asset: "nvim-linux-x86_64.tar.gz".to_owned(),
        sha256: digest('a'),
    }
}

#[test]
fn parses_exact_cli_grammar() {
    assert_eq!(
        Cli::parse(&words(&["install", "stable"])).unwrap(),
        Cli::Install(Channel::Stable)
    );
    assert_eq!(
        Cli::parse(&words(&["use", "nightly"])).unwrap(),
        Cli::Use(Channel::Nightly)
    );
    assert_eq!(
        Cli::parse(&words(&["update"])).unwrap(),
        Cli::Update(ChannelSelection::All)
    );
    assert_eq!(
        Cli::parse(&words(&["remove", "stable"])).unwrap(),
        Cli::Remove(ChannelSelection::Channel(Channel::Stable))
    );
    assert_eq!(
        Cli::parse(&words(&["remove"])).unwrap(),
        Cli::Remove(ChannelSelection::All)
    );
    assert_eq!(
        Cli::parse(&words(&["rollback", "stable"])).unwrap(),
        Cli::Rollback(Channel::Stable)
    );
    assert_eq!(Cli::parse(&words(&["status"])).unwrap(), Cli::Status);
}

#[test]
fn rejects_unsupported_cli_forms() {
    for arguments in [
        vec![],
        vec!["install"],
        vec!["install", "all"],
        vec!["use", "stable", "extra"],
        vec!["update", "all"],
        vec!["update", "all", "extra"],
        vec!["remove", "all"],
        vec!["remove", "nightly", "extra"],
        vec!["rollback"],
        vec!["rollback", "all"],
        vec!["status", "extra"],
        vec!["list"],
    ] {
        assert!(
            Cli::parse(&words(&arguments)).is_err(),
            "accepted invalid arguments"
        );
    }
}

#[test]
fn words_the_refusal_of_arguments() {
    for help in ["help", "--help", "-h"] {
        assert_eq!(Cli::parse(&words(&[help])).unwrap(), Cli::Help);
    }
    assert!(refused(&[]).starts_with("missing command\n\nUsage:\n"));
    assert!(refused(&["list"]).starts_with("unsupported command 'list'\n\nUsage:\n"));
    assert!(refused(&["install"])
        .starts_with("invalid arguments for 'install': expected 1, received 0\n\nUsage:"));
    assert!(refused(&["update", "a", "b"])
        .starts_with("invalid arguments for 'update': expected at most 1, received 2\n\nUsage:"));
    assert_eq!(
        refused(&["use", "beta"]),
        "unsupported channel 'beta'; expected stable or nightly"
    );
    assert_eq!(
        Cli::parse(&vec![vec![0xff]]).unwrap_err().message(),
        "command is not valid UTF-8"
    );
    assert_eq!(
        Cli::parse(&vec![b"use".to_vec(), vec![0xff]])
            .unwrap_err()
            .message(),
        "channel is not valid UTF-8"
    );
}

#[test]
fn metadata_round_trips() {
    let expected = metadata();
    let found = InstallMetadata::parse(&expected.serialize(), &UnixPath::new("metadata")).unwrap();
    assert_eq!(found.channel, expected.channel);
    assert_eq!(found.release, expected.release);
    assert_eq!(found.version, expected.version);
    assert_eq!(found.asset, expected.asset);
    assert_eq!(found.sha256, expected.sha256);
}

#[test]
fn metadata_rejects_schema_errors() {
    let valid = metadata().serialize();
    let cases = [
        valid.replace("channel=nightly\n", ""),
        valid.replace("channel=nightly\n", "channel=nightly\nchannel=nightly\n"),
        valid.replace("channel=nightly\n", "unknown=value\n"),
        valid.replace("asset=nvim-linux-x86_64.tar.gz", "asset=other.tar.gz"),
        valid.replace(&digest('a'), &digest('A')),
    ];
    for contents in cases {
        assert!(InstallMetadata::parse(&contents, &UnixPath::new("metadata")).is_err());
    }
}

#[test]
fn words_the_faults_of_metadata() {
    let valid = metadata().serialize();
    let fault = |contents: String| {
        InstallMetadata::parse(&contents, &UnixPath::new("m"))
            .unwrap_err()
            .message()
            .to_owned()
    };
    assert_eq!(
        fault(valid.replace("release=123456\n", "")),
        "missing metadata field 'release' at m"
    );
    assert_eq!(
        fault(valid.replace("release=123456\n", "\n")),
        "malformed metadata at m: empty line 2"
    );
    assert_eq!(
        fault(valid.replace("release=123456\n", "release\n")),
        "malformed metadata at m line 2: expected key=value"
    );
    assert_eq!(
        fault(valid.replace("release=", "size=")),
        "unknown metadata field 'size' at m"
    );
    assert_eq!(
        fault(valid.replace("release=123456\n", "release=1\nrelease=2\n")),
        "duplicate metadata field 'release' at m"
    );
    assert_eq!(
        fault(valid.replace("=nvim-linux-x86_64.tar.gz", "=x")),
        "unexpected asset 'x' in m; expected nvim-linux-x86_64.tar.gz"
    );
    assert_eq!(
        fault(String::new()),
        "missing metadata field 'asset' at m"
    );
    let reordered: Vec<&str> = valid.lines().rev().collect();
    let found = InstallMetadata::parse(&reordered.join("\r\n"), &UnixPath::new("m")).unwrap();
    assert_eq!(found.serialize(), valid);
}

#[test]
fn transaction_round_trips() {
    let path = UnixPath::new("t");
    for previous in [None, Some("stable-1".to_owned())] {
        let written = PointerTransaction {
            channel: Channel::Stable,
            current: "stable-2".to_owned(),
            previous: previous.clone(),
        };
        let read = PointerTransaction::parse(&written.serialize(), &path).unwrap();
        assert_eq!(read.channel, Channel::Stable);
        assert_eq!(read.current, "stable-2");
        assert_eq!(read.previous, previous);
    }
    let fault = |contents: &str| {
        PointerTransaction::parse(contents, &path)
            .unwrap_err()
            .message()
            .to_owned()
    };
    assert_eq!(
        fault("stable\nstable-2\nstable-2\n"),
        "malformed pointer transaction at t: current and previous are identical"
    );
    assert_eq!(
        fault("stable\nnightly-2\nnone\n"),
        "pointer transaction t references nightly installation nightly-2, expected stable"
    );
    assert_eq!(
        fault("stable\nstable-2\n"),
        "malformed pointer transaction at t: expected exactly 3 lines"
    );
}

#[test]
fn validates_exact_channel_targets() {
    let link = UnixPath::new("/tmp/current");
    assert_eq!(
        validate_channel_target(
            &UnixPath::new("../../installs/stable-123"),
            Channel::Stable,
            &link
        )
        .unwrap(),
        "stable-123"
    );
    for target in [
        "../../../outside/stable-123",
        "/tmp/stable-123",
        "../../installs/nightly-123",
        "../../installs/stable-abc",
    ] {
        assert!(validate_channel_target(&UnixPath::new(target), Channel::Stable, &link).is_err());
    }
}

#[test]
fn targets_are_told_apart_by_components() {
    let link = UnixPath::new("l");
    let name = |bytes: &[u8]| {
        validate_channel_target(&UnixPath::from_bytes(bytes.to_vec()), Channel::Nightly, &link)
            .map_err(|cause| cause.message().to_owned())
    };
    assert_eq!(name(b"../..//installs/./nightly-7/"), Ok("nightly-7".to_owned()));
    assert_eq!(
        name(b"./../installs/nightly-7"),
        Err("channel pointer l has unmanaged target ./../installs/nightly-7; expected ../../installs/nightly-<release-id>".to_owned())
    );
    assert_eq!(
        name(b"../../installs/.."),
        Err("channel pointer l has unmanaged target ../../installs/..".to_owned())
    );
    assert_eq!(
        name(b"../../installs/\xff"),
        Err("channel pointer l target is not valid UTF-8: ../../installs/\u{fffd}".to_owned())
    );
    assert_eq!(
        name(b"../../installs/stable-7"),
        Err("channel pointer l targets stable installation stable-7".to_owned())
    );
}

#[test]
fn paths_are_taken_apart() {
    let path = UnixPath::new("/a//b/./c/");
    assert!(path.same_as(&UnixPath::new("/a/b/c")));
    assert!(!path.same_as(&UnixPath::new("a/b/c")));
    assert!(path.is_in(&UnixPath::new("/a/b")));
    assert_eq!(path.file_name(), Some(b"c".to_vec()));
    assert_eq!(path.parent(), (true, Some(b"b".to_vec())));
    assert_eq!(UnixPath::new("/").parent(), (false, None));
    assert_eq!(UnixPath::new("/a").parent(), (true, None));
    assert_eq!(UnixPath::new("/a/..").file_name(), None);
    assert_eq!(UnixPath::new("/a/b").with_file_name(".b.new").bytes, b"/a/.b.new");
    assert_eq!(UnixPath::new("/a").join("/b").bytes, b"/b");
    assert_eq!(UnixPath::new("/a/").join("b").bytes, b"/a/b");
    assert_eq!(UnixPath::from_bytes(vec![0x61, 0xff]).display(), "a\u{fffd}");
}

#[test]
fn bytes_are_decoded() {
    assert_eq!(decode(&"grün".as_bytes().to_vec()), Ok("grün".to_owned()));
    assert_eq!(
        decode(&vec![0x61, 0xff]),
        Err("invalid utf-8 sequence of 1 bytes from index 1".to_owned())
    );
    assert_eq!(
        decode(&vec![0x61, 0xc3]),
        Err("incomplete utf-8 byte sequence from index 1".to_owned())
    );
    assert_eq!(decode_lossy(&vec![0x61, 0xff, 0x62]), "a\u{fffd}b");
    assert_eq!(decode_lossy(&"grün".as_bytes().to_vec()), "grün");
}

#[test]
fn releases_are_described_strictly() {
    for good in ["1", "10", "007"] {
        assert!(validate_release_id(good).is_ok());
    }
    for bad in ["", "0", "1a", "-1", "١"] {
        assert_eq!(
            validate_release_id(bad).unwrap_err().message(),
            format!("invalid GitHub release ID '{bad}': expected a positive decimal integer")
        );
    }
    assert!(validate_sha256(&digest('0')).is_ok());
    assert_eq!(
        validate_sha256("F").unwrap_err().message(),
        "invalid SHA-256 digest 'F': expected exactly 64 lowercase hexadecimal characters"
    );
    let url = "https://github.com/neovim/neovim/releases/download/v1/nvim-linux-x86_64.tar.gz";
    assert!(validate_download_url(url).is_ok());
    for bad in [
        url.replace("https", "http"),
        format!("{url}.sig"),
        url.replace("/v1/", "/v 1/"),
    ] {
        assert_eq!(
            validate_download_url(&bad).unwrap_err().message(),
            format!("invalid Neovim release asset URL '{bad}': expected an HTTPS github.com Neovim release URL ending in nvim-linux-x86_64.tar.gz")
        );
    }
    let path = UnixPath::new("n");
    assert!(validate_version("NVIM v0", &path).is_ok());
    for bad in ["NVIM v", "nvim v0", "NVIM v0\u{7}"] {
        assert!(validate_version(bad, &path).is_err());
    }
}

#[test]
fn description_of_a_release_is_read() {
    let url = "https://github.com/neovim/neovim/releases/download/v1/nvim-linux-x86_64.tar.gz";
    let path = UnixPath::new("r");
    let read = |id: &str, size: &str| {
        parse_release(&format!("{id}\n{url}\nsha256:{}\n{size}\n", digest('c')), &path)
            .map_err(|cause| cause.message().to_owned())
    };
    let release = read("17", "536870912").unwrap();
    assert_eq!(release.id, "17");
    assert_eq!(release.url, url);
    assert_eq!(release.sha256, digest('c'));
    assert_eq!(release.size, 536870912);
    assert_eq!(
        read("17", "0").unwrap_err(),
        "asset size from r must be greater than zero"
    );
    assert_eq!(
        read("17", "536870913").unwrap_err(),
        "GitHub reports an asset size of 536870913 bytes from r, exceeding nv's 536870912 byte safety limit; raise MAX_ASSET_SIZE if this is an expected Neovim release size"
    );
    assert_eq!(
        read("17", "1e3").unwrap_err(),
        "invalid asset size '1e3' from r: invalid digit found in string"
    );
    assert_eq!(
        read("0", "1").unwrap_err(),
        "invalid GitHub release ID '0': expected a positive decimal integer"
    );
    assert_eq!(
        parse_release("17\n", &path).unwrap_err().message(),
        "jq produced 1 release metadata fields for r, expected exactly 4"
    );
}

#[test]
fn digest_of_an_archive_is_compared() {
    let path = UnixPath::new("a");
    let fault = |text: &str| {
        check_digest(text, &path, &digest('1'))
            .unwrap_err()
            .message()
            .to_owned()
    };
    assert!(check_digest(&format!("{} *a\n", digest('1')), &path, &digest('1')).is_ok());
    assert_eq!(
        fault(&format!("{} *a\n", digest('2'))),
        format!(
            "SHA-256 mismatch for a: expected {}, got {}",
            digest('1'),
            digest('2')
        )
    );
    assert_eq!(fault(""), "sha256sum produced 0 lines for a, expected exactly one");
    assert_eq!(fault("  \n"), "sha256sum produced empty output for a");
    assert_eq!(
        fault("xyz a\n"),
        "invalid SHA-256 digest 'xyz': expected exactly 64 lowercase hexadecimal characters"
    );
}

#[test]
fn version_is_the_first_line() {
    let path = UnixPath::new("n");
    assert_eq!(parse_version("NVIM v1.2\nLuaJIT\n", &path).unwrap(), "NVIM v1.2");
    assert_eq!(
        parse_version("", &path).unwrap_err().message(),
        "staged Neovim n produced no version"
    );
}

#[test]
fn failure_of_a_program_is_worded() {
    let output = |code| nv::host::Output {
        code,
        stdout: Vec::new(),
        stderr: b" no\xff \n".to_vec(),
    };
    assert_eq!(
        command_failure("tar", "archive extraction", &output(Some(-2)), Some(&UnixPath::new("p")))
            .message(),
        "external program 'tar' failed during archive extraction for p with status -2: no\u{fffd}"
    );
    let silent = nv::host::Output {
        code: None,
        stdout: Vec::new(),
        stderr: Vec::new(),
    };
    assert_eq!(
        command_failure("jq", "version check", &silent, None).message(),
        "external program 'jq' failed during version check with status terminated by signal"
    );
}

#[test]
fn texts_are_taken_apart() {
    assert_eq!(split_lines("a\r\nb\n\nc"), ["a", "b", "", "c"]);
    assert_eq!(split_lines(""), Vec::<String>::new());
    assert_eq!(split_lines("\n"), [""]);
    assert_eq!(split_once("k=v=w", '='), Some(("k", "v=w")));
    assert_eq!(split_once("kv", '='), None);
    assert_eq!(trim("\u{3000} a b \t\n"), "a b");
    assert_eq!(leading_word(" \ta b"), Some("a"));
    assert_eq!(leading_word("\u{a0}"), None);
}

#[test]
fn numbers_are_read_and_written() {
    assert_eq!(parse_number("18446744073709551615"), Ok(u64::MAX));
    assert_eq!(parse_number("+5"), Ok(5));
    assert_eq!(parse_number("18446744073709551616"), Err(NumberFault::TooLarge));
    assert_eq!(parse_number(""), Err(NumberFault::Empty));
    for bad in ["+", "-1", "1 ", "18446744073709551616x"] {
        let expected = bad.parse::<u64>().unwrap_err().to_string();
        assert_eq!(parse_number(bad).unwrap_err().describe(), expected);
    }
    assert_eq!(decimal_of(u128::MAX), u128::MAX.to_string());
    assert_eq!(decimal_of(0), "0");
    assert_eq!(signed_decimal_of(i32::MIN), "-2147483648");
    assert_eq!(signed_decimal_of(7), "7");
}

#[test]
fn name_of_a_path_is_replaced() {
    for (path, expected) in [
        ("/a/b", "/a/name"),
        ("a/b/", "a/name"),
        ("a/b/.", "a/name"),
        ("a//b", "a/name"),
        ("a/./b", "a/name"),
        ("/b", "/name"),
        ("//b", "/name"),
        ("b", "name"),
        ("./b", "./name"),
        ("a/..", "a/../name"),
        ("/", "/name"),
        ("", "name"),
        (".", "./name"),
    ] {
        let found = UnixPath::new(path).with_file_name("name");
        assert_eq!(String::from_utf8(found.bytes).unwrap(), expected);
        let known = std::path::Path::new(path).with_file_name("name");
        assert_eq!(known.to_str().unwrap(), expected);
    }
}
