//! Releases, and what is accepted as a part of their description.

use vstd::prelude::*;

use crate::error::{error, verdict, worded, NvError};
use crate::path::{shown, UnixPath};
use crate::text::{
    begins, chars_of, contains_control, ends, ends_with, has_control, is_digit, same, starts_with,
    strip_prefix,
};

verus! {

/// The file of a release that nv installs.
pub const ASSET_NAME: &'static str = "nvim-linux-x86_64.tar.gz";

/// With what the address of every release asset begins.
pub const DOWNLOAD_PREFIX: &'static str =
    "https://github.com/neovim/neovim/releases/download/";

/// Whether every character of `text` is a decimal digit.
pub open spec fn all_digits(text: Seq<char>) -> bool {
    forall|k: int| 0 <= k < text.len() ==> is_digit(#[trigger] text[k])
}

/// Whether `value` identifies a release: a number other than `0`.
pub open spec fn is_release_id(value: Seq<char>) -> bool {
    value.len() > 0 && all_digits(value) && value != "0"@
}

/// The message for what identifies no release.
pub open spec fn bad_release_id(value: Seq<char>) -> Seq<char> {
    "invalid GitHub release ID '"@ + value + "': expected a positive decimal integer"@
}

/// Accepts what identifies a release.
pub fn validate_release_id(value: &str) -> (fine: Result<(), NvError>)
    ensures
        worded(fine) == verdict(is_release_id(value@), bad_release_id(value@)),
{
    let chars = chars_of(value);
    let mut digits: bool = true;
    let mut at: usize = 0;
    while at < chars.len()
        invariant
            chars@ == value@,
            at <= chars.len(),
            digits == all_digits(value@.take(at as int)),
        decreases chars.len() - at,
    {
        let c: char = chars[at];
        let ghost next = value@.take(at + 1);
        assert(next[at as int] == c);
        assert(forall|k: int| 0 <= k < at ==> next[k] == value@.take(at as int)[k]);
        digits = digits && '0' <= c && c <= '9';
        at = at + 1;
    }
    assert(value@.take(at as int) =~= value@);
    if chars.len() == 0 || !digits || same(value, "0") {
        return Err(
            error(
                "invalid GitHub release ID '".to_owned().concat(value).concat(
                    "': expected a positive decimal integer",
                ),
            ),
        );
    }
    Ok(())
}

/// Whether `c` is a lowercase hexadecimal digit.
pub open spec fn is_hex(c: char) -> bool {
    is_digit(c) || 'a' <= c <= 'f'
}

/// Whether every character of `text` is a lowercase hexadecimal digit.
pub open spec fn all_hex(text: Seq<char>) -> bool {
    forall|k: int| 0 <= k < text.len() ==> is_hex(#[trigger] text[k])
}

/// Whether `value` is a SHA-256 digest in hexadecimal.
pub open spec fn is_sha256(value: Seq<char>) -> bool {
    value.len() == 64 && all_hex(value)
}

/// The message for what is no SHA-256 digest.
pub open spec fn bad_sha256(value: Seq<char>) -> Seq<char> {
    "invalid SHA-256 digest '"@ + value
        + "': expected exactly 64 lowercase hexadecimal characters"@
}

/// Accepts a SHA-256 digest in hexadecimal.
pub fn validate_sha256(value: &str) -> (fine: Result<(), NvError>)
    ensures
        worded(fine) == verdict(is_sha256(value@), bad_sha256(value@)),
{
    let chars = chars_of(value);
    let mut hex: bool = true;
    let mut at: usize = 0;
    while at < chars.len()
        invariant
            chars@ == value@,
            at <= chars.len(),
            hex == all_hex(value@.take(at as int)),
        decreases chars.len() - at,
    {
        let c: char = chars[at];
        let ghost next = value@.take(at + 1);
        assert(next[at as int] == c);
        assert(forall|k: int| 0 <= k < at ==> next[k] == value@.take(at as int)[k]);
        hex = hex && (('0' <= c && c <= '9') || ('a' <= c && c <= 'f'));
        at = at + 1;
    }
    assert(value@.take(at as int) =~= value@);
    if chars.len() != 64 || !hex {
        return Err(
            error(
                "invalid SHA-256 digest '".to_owned().concat(value).concat(
                    "': expected exactly 64 lowercase hexadecimal characters",
                ),
            ),
        );
    }
    Ok(())
}

/// The digest in GitHub's description of an asset.
pub open spec fn api_digest(value: Seq<char>) -> Result<Seq<char>, Seq<char>> {
    if !begins(value, "sha256:"@) {
        Err(
            "invalid GitHub asset digest '"@ + value
                + "': expected sha256:<64 lowercase hexadecimal characters>"@,
        )
    } else {
        let digest = value.skip("sha256:"@.len() as int);
        if is_sha256(digest) {
            Ok(digest)
        } else {
            Err(bad_sha256(digest))
        }
    }
}

/// The digest in GitHub's description of an asset.
pub fn parse_api_digest(value: &str) -> (digest: Result<String, NvError>)
    ensures
        match digest {
            Ok(digest) => api_digest(value@) == Ok::<Seq<char>, Seq<char>>(digest@),
            Err(cause) => api_digest(value@) == Err::<Seq<char>, Seq<char>>(cause@),
        },
{
    match strip_prefix(value, "sha256:") {
        None => Err(
            error(
                "invalid GitHub asset digest '".to_owned().concat(value).concat(
                    "': expected sha256:<64 lowercase hexadecimal characters>",
                ),
            ),
        ),
        Some(digest) => {
            assert(value@.take("sha256:"@.len() as int) =~= "sha256:"@);
            assert(value@.skip("sha256:"@.len() as int) =~= digest@);
            validate_sha256(digest)?;
            Ok(digest.to_owned())
        },
    }
}

/// Whether `c` is white space in ASCII.
pub open spec fn is_ascii_space(c: char) -> bool {
    c == ' ' || c == '\t' || c == '\n' || c == '\u{c}' || c == '\r'
}

/// Whether some character of `text` is white space in ASCII.
pub open spec fn has_ascii_space(text: Seq<char>) -> bool {
    exists|k: int| 0 <= k < text.len() && is_ascii_space(#[trigger] text[k])
}

/// Whether `value` is the address of a release asset.
pub open spec fn is_download_url(value: Seq<char>) -> bool {
    begins(value, DOWNLOAD_PREFIX@) && !has_ascii_space(value) && ends(value, ASSET_NAME@)
}

/// The message for what is no address of a release asset.
pub open spec fn bad_download_url(value: Seq<char>) -> Seq<char> {
    "invalid Neovim release asset URL '"@ + value
        + "': expected an HTTPS github.com Neovim release URL ending in "@ + ASSET_NAME@
}

/// Accepts the address of a release asset.
pub fn validate_download_url(value: &str) -> (fine: Result<(), NvError>)
    ensures
        worded(fine) == verdict(is_download_url(value@), bad_download_url(value@)),
{
    let chars = chars_of(value);
    let mut spaces: bool = false;
    let mut at: usize = 0;
    while at < chars.len()
        invariant
            chars@ == value@,
            at <= chars.len(),
            spaces == has_ascii_space(value@.take(at as int)),
        decreases chars.len() - at,
    {
        let c: char = chars[at];
        let ghost here = value@.take(at as int);
        let ghost next = value@.take(at + 1);
        assert(next[at as int] == c);
        assert(forall|k: int| 0 <= k < at ==> next[k] == here[k]);
        proof {
            if has_ascii_space(here) {
                let k = choose|k: int| 0 <= k < here.len() && is_ascii_space(#[trigger] here[k]);
                assert(is_ascii_space(next[k]));
            }
        }
        spaces = spaces || c == ' ' || c == '\t' || c == '\n' || c == '\u{c}' || c == '\r';
        at = at + 1;
    }
    assert(value@.take(at as int) =~= value@);
    if !starts_with(value, DOWNLOAD_PREFIX) || spaces || !ends_with(value, ASSET_NAME) {
        return Err(
            error(
                "invalid Neovim release asset URL '".to_owned().concat(value).concat(
                    "': expected an HTTPS github.com Neovim release URL ending in ",
                ).concat(ASSET_NAME),
            ),
        );
    }
    Ok(())
}

/// Whether `value` is how Neovim reports its version.
pub open spec fn is_version(value: Seq<char>) -> bool {
    begins(value, "NVIM v"@) && value.len() > "NVIM v"@.len() && !has_control(value)
}

/// The message for what Neovim does not report as its version.
pub open spec fn bad_version(value: Seq<char>, path: Seq<u8>) -> Seq<char> {
    "invalid Neovim version '"@ + value + "' at "@ + shown(path)
        + ": expected the first --version line to start with 'NVIM v'"@
}

/// Accepts what Neovim reports as its version.
pub fn validate_version(value: &str, path: &UnixPath) -> (fine: Result<(), NvError>)
    ensures
        worded(fine) == verdict(is_version(value@), bad_version(value@, path@)),
{
    if !starts_with(value, "NVIM v") || value.unicode_len() <= "NVIM v".unicode_len()
        || contains_control(value) {
        return Err(
            error(
                "invalid Neovim version '".to_owned().concat(value).concat("' at ").concat(
                    path.display().as_str(),
                ).concat(": expected the first --version line to start with 'NVIM v'"),
            ),
        );
    }
    Ok(())
}

} // verus!
