//! Which texts are accepted as parts of the description of a release, and what is read from them.

use vstd::prelude::*;

use crate::disk::at;
use crate::path::shown;
use crate::release::{
    api_digest, bad_download_url, bad_release_id, bad_sha256, bad_version, has_ascii_space,
    is_ascii_space, is_download_url, is_hex, is_release_id, is_sha256, is_version,
};
use crate::text::{decimal, digits_value, has_control, is_control, is_digit, number, NumberFault};

verus! {

/// Bytes in lowercase hexadecimal: the upper and the lower half of each byte, as digits.
pub open spec fn hexadecimal(bytes: Seq<u8>) -> Seq<char> {
    Seq::new(2 * bytes.len(), |k: int| "0123456789abcdef"@[half_at(bytes, k)])
}

/// The half of a byte that stands at place `k` if every byte is cut in two.
pub open spec fn half_at(bytes: Seq<u8>, k: int) -> int {
    if k % 2 == 0 {
        bytes[k / 2] as int / 16
    } else {
        bytes[k / 2] as int % 16
    }
}

/// The half of a byte that a hexadecimal digit stands for.
pub open spec fn half(c: char) -> int {
    if c <= '9' {
        c as int - '0' as int
    } else {
        c as int - 'a' as int + 10
    }
}

/// The bytes that are written in hexadecimal.
pub open spec fn bytes_of(text: Seq<char>) -> Seq<u8> {
    Seq::new(text.len() / 2, |k: int| (16 * half(text[2 * k]) + half(text[2 * k + 1])) as u8)
}

proof fn lemma_half(c: char)
    requires
        is_hex(c),
    ensures
        0 <= half(c) < 16,
        "0123456789abcdef"@[half(c)] == c,
{
    reveal_strlit("0123456789abcdef");
}

proof fn lemma_hex_digit(value: int)
    requires
        0 <= value < 16,
    ensures
        is_hex("0123456789abcdef"@[value]),
{
    reveal_strlit("0123456789abcdef");
}

/// A text is a digest exactly if it is how some 32 bytes are written in lowercase hexadecimal.
pub proof fn digest_is_hexadecimal(text: Seq<char>)
    ensures
        is_sha256(text) <==> exists|bytes: Seq<u8>|
            bytes.len() == 32 && text == #[trigger] hexadecimal(bytes),
{
    if is_sha256(text) {
        let bytes = bytes_of(text);
        assert(bytes.len() == 32);
        assert forall|k: int| 0 <= k < 64 implies #[trigger] text[k] == hexadecimal(bytes)[k] by {
            let j = k / 2;
            assert(is_hex(text[2 * j]) && is_hex(text[2 * j + 1]));
            lemma_half(text[2 * j]);
            lemma_half(text[2 * j + 1]);
            assert(bytes[j] as int == 16 * half(text[2 * j]) + half(text[2 * j + 1]));
            assert(bytes[j] as int / 16 == half(text[2 * j]));
            assert(bytes[j] as int % 16 == half(text[2 * j + 1]));
            assert(k == 2 * j || k == 2 * j + 1);
        }
        assert(text =~= hexadecimal(bytes));
    }
    assert forall|bytes: Seq<u8>|
        bytes.len() == 32 && text == #[trigger] hexadecimal(bytes) implies is_sha256(text) by {
        assert forall|k: int| 0 <= k < text.len() implies is_hex(#[trigger] text[k]) by {
            lemma_hex_digit(bytes[k / 2] as int / 16);
            lemma_hex_digit(bytes[k / 2] as int % 16);
        }
    }
}

/// GitHub announces a digest with its algorithm in front: any 32 bytes in hexadecimal behind
/// `sha256:` are the digest, and nothing else is one.
pub proof fn announced_digest_is_read(text: Seq<char>, digest: Seq<char>)
    ensures
        api_digest(text) == Ok::<Seq<char>, Seq<char>>(digest) <==> text == "sha256:"@ + digest
            && exists|bytes: Seq<u8>|
            bytes.len() == 32 && digest == #[trigger] hexadecimal(bytes),
{
    digest_is_hexadecimal(digest);
    let head = "sha256:"@;
    if text == head + digest {
        assert(text.take(head.len() as int) =~= head);
        assert(text.skip(head.len() as int) =~= digest);
    }
    if api_digest(text) is Ok {
        assert(text =~= head + text.skip(head.len() as int));
    }
}

/// A text identifies a release exactly if it consists of decimal digits, of one at least, and is
/// not zero.
pub proof fn release_id_is_a_number(text: Seq<char>)
    ensures
        is_release_id(text) <==> {
            &&& text.len() > 0
            &&& forall|k: int| 0 <= k < text.len() ==> "0123456789"@.contains(#[trigger] text[k])
            &&& text != "0"@
        },
{
    assert forall|c: char| is_digit(c) == #[trigger] "0123456789"@.contains(c) by {
        lemma_digit(c);
    }
    if is_release_id(text) {
        assert forall|k: int| 0 <= k < text.len() implies "0123456789"@.contains(
            #[trigger] text[k],
        ) by {
            assert(is_digit(text[k]));
        }
    }
}

proof fn lemma_digit(c: char)
    ensures
        is_digit(c) == "0123456789"@.contains(c),
{
    let all = "0123456789"@;
    reveal_strlit("0123456789");
    if is_digit(c) {
        assert(all[c as int - '0' as int] == c);
    }
    if all.contains(c) {
        let k = choose|k: int| 0 <= k < all.len() && all[k] == c;
        assert(is_digit(all[k]));
    }
}

/// Every positive number identifies a release.
pub proof fn positive_number_is_a_release_id(value: nat)
    requires
        value > 0,
    ensures
        is_release_id(decimal(value)),
    decreases value,
{
    reveal_strlit("0");
    if value >= 10 {
        positive_number_is_a_release_id(value / 10);
        let front = decimal(value / 10);
        assert forall|k: int| 0 <= k < decimal(value).len() implies is_digit(
            #[trigger] decimal(value)[k],
        ) by {
            if k < front.len() {
                assert(decimal(value)[k] == front[k]);
                assert(is_digit(front[k]));
            }
        }
        assert(decimal(value).len() > 1);
    } else {
        assert(decimal(value)[0] as int == 48 + value);
        assert("0"@[0] == '0');
    }
}

/// The white space that an address must not hold.
pub open spec fn blank(c: char) -> bool {
    c == ' ' || c == '\t' || c == '\n' || c == '\r' || c == '\u{c}'
}

/// An address is one of a release asset exactly if it begins with the place of all of Neovim's
/// downloads, ends in the name of the archive for Linux and holds no white space.
pub proof fn address_is_a_download(text: Seq<char>)
    ensures
        is_download_url(text) <==> {
            &&& "https://github.com/neovim/neovim/releases/download/"@.is_prefix_of(text)
            &&& "nvim-linux-x86_64.tar.gz"@.is_suffix_of(text)
            &&& forall|k: int| 0 <= k < text.len() ==> !blank(#[trigger] text[k])
        },
{
    let front = "https://github.com/neovim/neovim/releases/download/"@;
    let back = "nvim-linux-x86_64.tar.gz"@;
    reveal_strlit("https://github.com/neovim/neovim/releases/download/");
    reveal_strlit("nvim-linux-x86_64.tar.gz");
    if front.len() <= text.len() {
        assert(text.take(front.len() as int) =~= text.subrange(0, front.len() as int));
    }
    if back.len() <= text.len() {
        assert(text.skip(text.len() - back.len()) =~= text.subrange(
            text.len() - back.len(),
            text.len() as int,
        ));
    }
    if has_ascii_space(text) {
        let k = choose|k: int| 0 <= k < text.len() && is_ascii_space(#[trigger] text[k]);
        assert(blank(text[k]));
    }
    if exists|k: int| 0 <= k < text.len() && blank(#[trigger] text[k]) {
        let k = choose|k: int| 0 <= k < text.len() && blank(#[trigger] text[k]);
        assert(is_ascii_space(text[k]));
    }
}

/// Whatever the tag of a release is, as long as it holds no white space, the address of the archive
/// under that tag is accepted.
pub proof fn download_of_any_tag_is_accepted(tag: Seq<char>)
    requires
        forall|k: int| 0 <= k < tag.len() ==> !blank(#[trigger] tag[k]),
    ensures
        is_download_url(
            "https://github.com/neovim/neovim/releases/download/"@ + tag + "/"@
                + "nvim-linux-x86_64.tar.gz"@,
        ),
{
    let front = "https://github.com/neovim/neovim/releases/download/"@;
    let back = "nvim-linux-x86_64.tar.gz"@;
    let text = front + tag + "/"@ + back;
    reveal_strlit("https://github.com/neovim/neovim/releases/download/");
    reveal_strlit("nvim-linux-x86_64.tar.gz");
    reveal_strlit("/");
    assert(text.subrange(0, front.len() as int) =~= front);
    assert(text.subrange(text.len() - back.len(), text.len() as int) =~= back);
    assert forall|k: int| 0 <= k < text.len() implies !blank(#[trigger] text[k]) by {
        let n = front.len() as int;
        let m = n + tag.len();
        if k < n {
            assert(text[k] == front[k]);
            lemma_not_blank(k);
        } else if k < m {
            assert(text[k] == tag[k - n]);
        } else if k == m {
            assert(text[k] == '/');
        } else {
            assert(text[k] == back[k - m - 1]);
            lemma_not_blank(k - m - 1);
        }
    }
    address_is_a_download(text);
}

proof fn lemma_not_blank(k: int)
    ensures
        0 <= k < "https://github.com/neovim/neovim/releases/download/"@.len() ==> !blank(
            "https://github.com/neovim/neovim/releases/download/"@[k],
        ),
        0 <= k < "nvim-linux-x86_64.tar.gz"@.len() ==> !blank("nvim-linux-x86_64.tar.gz"@[k]),
{
    reveal_strlit("https://github.com/neovim/neovim/releases/download/");
    reveal_strlit("nvim-linux-x86_64.tar.gz");
}

/// Whether a character is one of those that steer a terminal rather than show on it.
pub open spec fn steers(c: char) -> bool {
    let code = c as int;
    code <= 31 || 127 <= code <= 159
}

/// What Neovim reports is a version exactly if something follows `NVIM v` and none of it is a
/// control character.
pub proof fn version_follows_the_name(text: Seq<char>)
    ensures
        is_version(text) <==> exists|rest: Seq<char>|
            {
                &&& text == #[trigger] ("NVIM v"@ + rest)
                &&& rest.len() > 0
                &&& forall|k: int|
                    0 <= k < rest.len() ==> !steers(#[trigger] rest[k])
            },
{
    let front = "NVIM v"@;
    reveal_strlit("NVIM v");
    if is_version(text) {
        let rest = text.skip(6);
        assert(text =~= front + rest);
        assert forall|k: int| 0 <= k < rest.len() implies !steers(#[trigger] rest[k]) by {
            assert(rest[k] == text[k + 6]);
            assert(!is_control(text[k + 6]));
        }
    }
    assert forall|rest: Seq<char>|
        {
            &&& text == #[trigger] (front + rest)
            &&& rest.len() > 0
            &&& forall|k: int|
                0 <= k < rest.len() ==> !steers(#[trigger] rest[k])
        } implies is_version(text) by {
        assert(text.take(6) =~= front);
        if has_control(text) {
            let k = choose|k: int| 0 <= k < text.len() && is_control(#[trigger] text[k]);
            if k < 6 {
                assert(text[k] == front[k]);
            } else {
                assert(text[k] == rest[k - 6]);
            }
        }
    }
}

/// A number is read from what it is written as, with or without a sign in front, if 64 bits hold
/// it.
pub proof fn number_is_read_back(value: nat)
    ensures
        number(decimal(value)) == if value <= u64::MAX {
            Ok::<nat, NumberFault>(value)
        } else {
            Err::<nat, NumberFault>(NumberFault::TooLarge)
        },
        value <= u64::MAX ==> number("+"@ + decimal(value)) == Ok::<nat, NumberFault>(value),
{
    lemma_digits_read(value);
    reveal_strlit("+");
    assert(decimal(value)[0] != '+') by {
        lemma_first_digit(value);
    }
    let signed = "+"@ + decimal(value);
    assert(signed.skip(1) =~= decimal(value));
    assert(signed[0] == '+');
}

proof fn lemma_first_digit(value: nat)
    ensures
        decimal(value).len() > 0,
        is_digit(decimal(value)[0]),
    decreases value,
{
    if value >= 10 {
        lemma_first_digit(value / 10);
        assert(decimal(value)[0] == decimal(value / 10)[0]);
    }
}

proof fn lemma_digits_read(value: nat)
    ensures
        decimal(value).len() > 0,
        digits_value(decimal(value)) == if value <= u64::MAX {
            Ok::<nat, NumberFault>(value)
        } else {
            Err::<nat, NumberFault>(NumberFault::TooLarge)
        },
    decreases value,
{
    let text = decimal(value);
    if value >= 10 {
        lemma_digits_read(value / 10);
        assert(text.drop_last() =~= decimal(value / 10));
        assert(text.last() as nat == 48 + value % 10);
        assert(value == value / 10 * 10 + value % 10);
    } else {
        reveal_with_fuel(digits_value, 2);
        assert(text.drop_last() =~= seq![]);
        assert(text.last() as nat == 48 + value);
    }
}

/// What is read as a number consists of decimal digits, and perhaps a sign in front of them.
pub proof fn only_digits_are_a_number(text: Seq<char>)
    ensures
        number(text) is Ok ==> {
            let digits = if text.len() > 1 && text[0] == '+' {
                text.skip(1)
            } else {
                text
            };
            &&& digits.len() > 0
            &&& forall|k: int| 0 <= k < digits.len() ==> "0123456789"@.contains(#[trigger] digits[k])
        },
{
    if number(text) is Ok {
        let digits = if text.len() > 1 && text[0] == '+' {
            text.skip(1)
        } else {
            text
        };
        lemma_all_digits(digits);
    }
}

proof fn lemma_all_digits(text: Seq<char>)
    requires
        digits_value(text) is Ok,
    ensures
        forall|k: int| 0 <= k < text.len() ==> "0123456789"@.contains(#[trigger] text[k]),
    decreases text.len(),
{
    if text.len() > 0 {
        lemma_all_digits(text.drop_last());
        lemma_digit(text.last());
        assert forall|k: int| 0 <= k < text.len() implies "0123456789"@.contains(
            #[trigger] text[k],
        ) by {
            if k < text.len() - 1 {
                assert(text.drop_last()[k] == text[k]);
            }
        }
    }
}

/// What is refused is quoted, with what was expected in its place.
pub proof fn refused_part_is_quoted(text: Seq<char>, path: Seq<u8>)
    ensures
        bad_release_id(text) == "invalid GitHub release ID '"@ + text
            + "': expected a positive decimal integer"@,
        bad_sha256(text) == "invalid SHA-256 digest '"@ + text
            + "': expected exactly 64 lowercase hexadecimal characters"@,
        bad_download_url(text) == "invalid Neovim release asset URL '"@ + text
            + "': expected an HTTPS github.com Neovim release URL ending in "@
            + "nvim-linux-x86_64.tar.gz"@,
        bad_version(text, path) == "invalid Neovim version '"@ + text + "' at "@ + shown(path)
            + ": expected the first --version line to start with 'NVIM v'"@,
{
}

} // verus!
