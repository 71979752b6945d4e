use nv::channel::Channel;
use nv::metadata::parse_install_name;
use nv::path::UnixPath;
use nv::paths::Paths;
use nv::release::parse_api_digest;

fn digest(character: char) -> String {
    std::iter::repeat(character).take(64).collect()
}

#[test]
fn strictly_parses_api_digest() {
    let valid = digest('a');
    assert_eq!(parse_api_digest(&format!("sha256:{valid}")).unwrap(), valid);
    for invalid in [
        format!("sha512:{}", digest('a')),
        format!("sha256:{}", "a".repeat(63)),
        format!("sha256:{}", "A".repeat(64)),
        format!("sha256:{}", "g".repeat(64)),
    ] {
        assert!(parse_api_digest(&invalid).is_err());
    }
}

#[test]
fn validates_managed_install_names() {
    assert_eq!(
        parse_install_name("stable-123").unwrap(),
        (Channel::Stable, "123")
    );
    assert_eq!(
        parse_install_name("nightly-456").unwrap(),
        (Channel::Nightly, "456")
    );
    for invalid in ["stable", "nightly-abc", "other-123", "stable-../123"] {
        assert!(parse_install_name(invalid).is_err());
    }
}

#[test]
fn home_must_be_absolute() {
    assert!(Paths::from_home(&UnixPath::new("relative")).is_err());
    let paths = Paths::from_home(&UnixPath::new("/home/tester")).unwrap();
    assert_eq!(paths.state.bytes, b"/home/tester/.local/share/nv");
    assert_eq!(paths.nvim_link.bytes, b"/home/tester/.local/bin/nvim");
}
