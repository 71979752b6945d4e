//! What is asked of other programs to obtain a release, and what their answers mean.

use vstd::prelude::*;
use vstd::utf8::*;

use crate::activation::destination;
use crate::channel::Channel;
use crate::host::{Deed, Ending, Invocation, World};
use crate::install::archive_fetched;
use crate::laws_accepted::{
    address_is_a_download, announced_digest_is_read, blank, digest_is_hexadecimal, hexadecimal,
    number_is_read_back, release_id_is_a_number,
};
use crate::laws_text::{first_word_is_found, is_word, white};
use crate::laws_words::{channels_are_described_apart, lemma_decoded};
use crate::path::shown;
use crate::paths::within;
use crate::programs::{
    asset_request, asset_size, curl, digest_reported, digest_verified, extracted, jq, offer_deeds,
    offer_in, offer_resolved, sha256sum, tar, Offer, Setting,
};
use crate::release::is_sha256;
use crate::text::{decimal, first_word, is_line, lemma_first_line, lines, number, NumberFault};

verus! {

/// Whether a program that was run has come to its end without a complaint, having written `text`.
pub open spec fn wrote(ran: Result<Ending, Seq<char>>, text: Seq<char>) -> bool {
    ran matches Ok(ending) && ending.code == Some(0i32) && ending.stdout == encode_utf8(text)
}

/// Whether a program that was run has come to its end without a complaint.
pub open spec fn complied(ran: Result<Ending, Seq<char>>) -> bool {
    ran matches Ok(ending) && ending.code == Some(0i32)
}

/// How GitHub is asked for the description of a release.
pub open spec fn description_request(
    version: Seq<char>,
    address: Seq<char>,
    response: Seq<u8>,
) -> Invocation {
    Invocation {
        program: encode_utf8("curl"@),
        arguments: seq![
            encode_utf8("--show-error"@),
            encode_utf8("--fail-with-body"@),
            encode_utf8("--location"@),
            encode_utf8("--proto"@),
            encode_utf8("=https"@),
            encode_utf8("--proto-redir"@),
            encode_utf8("=https"@),
            encode_utf8("--connect-timeout"@),
            encode_utf8("15"@),
            encode_utf8("--max-time"@),
            encode_utf8("60"@),
            encode_utf8("--max-filesize"@),
            encode_utf8("10485760"@),
            encode_utf8("--header"@),
            encode_utf8("User-Agent: nv/"@ + version),
            encode_utf8("--output"@),
            response,
            encode_utf8("--silent"@),
            encode_utf8("--header"@),
            encode_utf8("Accept: application/vnd.github+json"@),
            encode_utf8("--header"@),
            encode_utf8("X-GitHub-Api-Version: 2026-03-10"@),
            encode_utf8(address),
        ],
        report: false,
    }
}

/// How the archive of a release is asked for: no more than the announced size is taken, and the
/// progress is shown exactly if there is a terminal to show it on.
pub open spec fn archive_request(
    version: Seq<char>,
    terminal: bool,
    address: Seq<char>,
    size: Seq<char>,
    archive: Seq<u8>,
) -> Invocation {
    Invocation {
        program: encode_utf8("curl"@),
        arguments: seq![
            encode_utf8("--show-error"@),
            encode_utf8("--fail-with-body"@),
            encode_utf8("--location"@),
            encode_utf8("--proto"@),
            encode_utf8("=https"@),
            encode_utf8("--proto-redir"@),
            encode_utf8("=https"@),
            encode_utf8("--connect-timeout"@),
            encode_utf8("15"@),
            encode_utf8("--max-time"@),
            encode_utf8("600"@),
            encode_utf8("--max-filesize"@),
            encode_utf8(size),
            encode_utf8("--header"@),
            encode_utf8("User-Agent: nv/"@ + version),
            encode_utf8("--output"@),
            archive,
            encode_utf8(
                if terminal {
                    "--progress-bar"@
                } else {
                    "--silent"@
                },
            ),
            encode_utf8(address),
        ],
        report: terminal,
    }
}

/// How the parts of a release are picked from its description.
pub open spec fn selection_request(response: Seq<u8>) -> Invocation {
    Invocation {
        program: encode_utf8("jq"@),
        arguments: seq![
            encode_utf8("--raw-output"@),
            encode_utf8("--exit-status"@),
            encode_utf8("--arg"@),
            encode_utf8("asset"@),
            encode_utf8("nvim-linux-x86_64.tar.gz"@),
            encode_utf8(r#"
      (.assets // error("missing assets")) as $assets
      | ($assets | map(select(.name == $asset))) as $matches
      | if ($matches | length) != 1 then error("expected exactly one asset named '\($asset)'; Neovim may have renamed its Linux x86_64 release asset") else . end
      | ($matches[0]) as $asset_data
      | (.id | if type == "number" and . > 0 and . == floor then tostring else error("invalid release id") end),
        ($asset_data.browser_download_url | if type == "string" and length > 0 then . else error("invalid browser_download_url") end),
        ($asset_data.digest | if type == "string" and length > 0 then . else error("invalid asset digest") end),
        ($asset_data.size | if type == "number" and . > 0 and . == floor then tostring else error("invalid asset size") end)
    "#@),
            response,
        ],
        report: false,
    }
}

/// How the digest of a file is asked for.
pub open spec fn digest_request(path: Seq<u8>) -> Invocation {
    Invocation {
        program: encode_utf8("sha256sum"@),
        arguments: seq![encode_utf8("--binary"@), path],
        report: false,
    }
}

/// How an archive is unpacked into a directory.
pub open spec fn unpacking_request(archive: Seq<u8>, destination: Seq<u8>) -> Invocation {
    Invocation {
        program: encode_utf8("tar"@),
        arguments: seq![
            encode_utf8("--extract"@),
            encode_utf8("--gzip"@),
            encode_utf8("--file"@),
            archive,
            encode_utf8("--directory"@),
            destination,
            encode_utf8("--no-same-owner"@),
            encode_utf8("--no-same-permissions"@),
        ],
        report: false,
    }
}

/// A number in digits.
proof fn lemma_decimals()
    ensures
        decimal(60) == "60"@,
        decimal(600) == "600"@,
        decimal(10485760) == "10485760"@,
{
    reveal_strlit("60");
    reveal_strlit("600");
    reveal_strlit("10485760");
    reveal_with_fuel(decimal, 9);
    assert(decimal(60) =~= "60"@);
    assert(decimal(600) =~= "600"@);
    assert(decimal(10485760) =~= "10485760"@);
}

/// The request for a description goes to the address that is given, over HTTPS alone, into the file
/// that is given, and is bounded in time and size.
pub proof fn lemma_description_request(setting: Setting, address: Seq<char>, response: Seq<u8>)
    ensures
        curl(setting, address, response, true, 10485760, 60) == description_request(
            setting.version@,
            address,
            response,
        ),
{
    lemma_decimals();
    reveal_strlit("X-GitHub-Api-Version: ");
    reveal_strlit("2026-03-10");
    reveal_strlit("X-GitHub-Api-Version: 2026-03-10");
    assert("X-GitHub-Api-Version: "@ + "2026-03-10"@ =~= "X-GitHub-Api-Version: 2026-03-10"@);
    assert(curl(setting, address, response, true, 10485760, 60).arguments =~= description_request(
        setting.version@,
        address,
        response,
    ).arguments);
}

/// The archive of a release is asked for at the address that the release is offered with.
pub proof fn archive_is_asked_for(setting: Setting, offer: Offer, archive: Seq<u8>)
    ensures
        asset_request(setting, offer, archive) == archive_request(
            setting.version@,
            setting.terminal,
            offer.url,
            decimal(offer.size as nat),
            archive,
        ),
{
    lemma_decimals();
    assert(asset_request(setting, offer, archive).arguments =~= archive_request(
        setting.version@,
        setting.terminal,
        offer.url,
        decimal(offer.size as nat),
        archive,
    ).arguments);
}

/// The description, the digest and the contents of an archive are asked for of `jq`, `sha256sum`
/// and `tar`.
pub proof fn helpers_are_asked(path: Seq<u8>, destination: Seq<u8>)
    ensures
        jq(path) == selection_request(path),
        sha256sum(path) == digest_request(path),
        tar(path, destination) == unpacking_request(path, destination),
{
    assert(jq(path).arguments =~= selection_request(path).arguments);
    assert(sha256sum(path).arguments =~= digest_request(path).arguments);
    assert(tar(path, destination).arguments =~= unpacking_request(path, destination).arguments);
}

/// Where each channel is described.
pub open spec fn description_address(channel: Channel) -> Seq<char> {
    match channel {
        Channel::Stable => "https://api.github.com/repos/neovim/neovim/releases/latest"@,
        Channel::Nightly => "https://api.github.com/repos/neovim/neovim/releases/tags/nightly"@,
    }
}

/// Whether an offer can be accepted: it is numbered, its archive is one of Neovim's downloads and
/// not too large, and its digest is one.
pub open spec fn fit(offer: Offer) -> bool {
    &&& offer.id.len() > 0
    &&& forall|k: int| 0 <= k < offer.id.len() ==> "0123456789"@.contains(#[trigger] offer.id[k])
    &&& offer.id != "0"@
    &&& "https://github.com/neovim/neovim/releases/download/"@.is_prefix_of(offer.url)
    &&& "nvim-linux-x86_64.tar.gz"@.is_suffix_of(offer.url)
    &&& forall|k: int| 0 <= k < offer.url.len() ==> !blank(#[trigger] offer.url[k])
    &&& exists|bytes: Seq<u8>| bytes.len() == 32 && offer.sha256 == #[trigger] hexadecimal(bytes)
    &&& 1 <= offer.size <= 512 * 1024 * 1024
}

/// The lines in which an offer is described.
pub open spec fn description(offer: Offer) -> Seq<char> {
    offer.id + "\n"@ + (offer.url + "\n"@ + ("sha256:"@ + offer.sha256 + "\n"@ + (decimal(
        offer.size as nat,
    ) + "\n"@ + seq![])))
}

/// A size is accepted exactly from one byte to half a gibibyte.
pub proof fn size_is_bounded(size: nat, response: Seq<u8>)
    ensures
        asset_size(decimal(size), response) is Ok <==> 1 <= size <= 512 * 1024 * 1024,
        1 <= size <= 512 * 1024 * 1024 ==> asset_size(decimal(size), response) == Ok::<
            u64,
            Seq<char>,
        >(size as u64),
{
    number_is_read_back(size);
}

/// A size that is not accepted is refused with the reason.
pub proof fn refused_size_is_explained(size: nat, response: Seq<u8>)
    ensures
        asset_size(decimal(0), response) == Err::<u64, Seq<char>>(
            "asset size from "@ + shown(response) + " must be greater than zero"@,
        ),
        512 * 1024 * 1024 < size <= u64::MAX ==> asset_size(decimal(size), response) == Err::<
            u64,
            Seq<char>,
        >(
            "GitHub reports an asset size of "@ + decimal(size) + " bytes from "@ + shown(response)
                + ", exceeding nv's "@ + decimal(536870912)
                + " byte safety limit; raise MAX_ASSET_SIZE if this is an expected Neovim release size"@,
        ),
        size > u64::MAX ==> asset_size(decimal(size), response) == Err::<u64, Seq<char>>(
            "invalid asset size '"@ + decimal(size) + "' from "@ + shown(response) + ": "@
                + "number too large to fit in target type"@,
        ),
{
    number_is_read_back(0);
    number_is_read_back(size);
}

proof fn lemma_plain_line(line: Seq<char>)
    requires
        forall|k: int| 0 <= k < line.len() ==> !blank(#[trigger] line[k]),
    ensures
        is_line(line),
{
    assert forall|k: int| 0 <= k < line.len() implies line[k] != '\n' by {
        assert(!blank(line[k]));
    }
    if line.len() > 0 {
        assert(!blank(line[line.len() - 1]));
    }
}

proof fn lemma_digit_line(line: Seq<char>)
    requires
        forall|k: int| 0 <= k < line.len() ==> "0123456789"@.contains(#[trigger] line[k]),
    ensures
        is_line(line),
{
    reveal_strlit("0123456789");
    assert forall|k: int| 0 <= k < line.len() implies !blank(#[trigger] line[k]) by {
        assert("0123456789"@.contains(line[k]));
    }
    lemma_plain_line(line);
}

proof fn lemma_decimal_digits(value: nat)
    ensures
        forall|k: int|
            0 <= k < decimal(value).len() ==> "0123456789"@.contains(#[trigger] decimal(value)[k]),
    decreases value,
{
    reveal_strlit("0123456789");
    let all = "0123456789"@;
    let last: int = value as int % 10;
    assert(all[last] as int == 48 + last);
    if value >= 10 {
        lemma_decimal_digits(value / 10);
        assert forall|k: int| 0 <= k < decimal(value).len() implies all.contains(
            #[trigger] decimal(value)[k],
        ) by {
            if k < decimal(value).len() - 1 {
                assert(decimal(value)[k] == decimal(value / 10)[k]);
            } else {
                assert(decimal(value)[k] == all[last]);
            }
        }
    } else {
        assert(decimal(value)[0] == all[last]);
    }
}

proof fn lemma_digest_line(digest: Seq<char>)
    requires
        exists|bytes: Seq<u8>| bytes.len() == 32 && digest == #[trigger] hexadecimal(bytes),
    ensures
        is_line("sha256:"@ + digest),
        is_word(digest),
{
    let line = "sha256:"@ + digest;
    reveal_strlit("sha256:");
    digest_is_hexadecimal(digest);
    assert(is_sha256(digest));
    assert forall|k: int| 0 <= k < line.len() implies !blank(#[trigger] line[k]) by {
        if k >= 7 {
            assert(line[k] == digest[k - 7]);
        }
    }
    lemma_plain_line(line);
    assert forall|k: int| 0 <= k < digest.len() implies !white(#[trigger] digest[k]) by {
        let code = digest[k] as int;
        assert(48 <= code <= 57 || 97 <= code <= 102);
    }
}

/// Every offer that can be accepted is read from its description, whatever its number, its tag, its
/// digest and its size.
pub proof fn described_offer_is_read(offer: Offer, response: Seq<u8>)
    requires
        fit(offer),
    ensures
        offer_in(description(offer), response) == Ok::<Offer, Seq<char>>(offer),
{
    let size = decimal(offer.size as nat);
    let none: Seq<char> = seq![];
    let last = size + "\n"@ + none;
    let digest = "sha256:"@ + offer.sha256;
    let third = digest + "\n"@ + last;
    let second = offer.url + "\n"@ + third;
    lemma_digit_line(offer.id);
    lemma_plain_line(offer.url);
    lemma_digest_line(offer.sha256);
    lemma_decimal_digits(offer.size as nat);
    lemma_digit_line(size);
    lemma_first_line(offer.id, second);
    lemma_first_line(offer.url, third);
    lemma_first_line(digest, last);
    lemma_first_line(size, none);
    assert(lines(none) =~= seq![]);
    assert(lines(description(offer)) =~= seq![offer.id, offer.url, digest, size]);
    release_id_is_a_number(offer.id);
    address_is_a_download(offer.url);
    announced_digest_is_read(digest, offer.sha256);
    size_is_bounded(offer.size as nat, response);
}

/// What is read as an offer can be accepted, and is what the four lines say.
pub proof fn offer_is_what_its_lines_say(text: Seq<char>, response: Seq<u8>, offer: Offer)
    requires
        offer_in(text, response) == Ok::<Offer, Seq<char>>(offer),
    ensures
        fit(offer),
        lines(text).len() == 4,
        lines(text)[0] == offer.id,
        lines(text)[1] == offer.url,
        lines(text)[2] == "sha256:"@ + offer.sha256,
        number(lines(text)[3]) == Ok::<nat, NumberFault>(offer.size as nat),
{
    release_id_is_a_number(offer.id);
    address_is_a_download(offer.url);
    announced_digest_is_read(lines(text)[2], offer.sha256);
}

/// The release that a channel offers is the one that GitHub describes at the address of that
/// channel: the description is downloaded from there, `jq` picks the parts from it, and what it
/// writes is the offer. Without a download or without parts there is no offer.
pub proof fn offer_is_that_of_the_channel(
    w: World,
    setting: Setting,
    channel: Channel,
    staging: Seq<u8>,
    offer: Offer,
)
    ensures
        ({
            let response = within(staging, "release.json"@);
            let (fetched, w1) = w.run(
                description_request(setting.version@, description_address(channel), response),
            );
            let (picked, w2) = w1.run(selection_request(response));
            let (resolved, after) = offer_resolved(w, setting, channel, staging);
            &&& complied(fetched) && fit(offer) && wrote(picked, description(offer)) ==> resolved
                == Ok::<Offer, Seq<char>>(offer) && after == w2
            &&& resolved is Ok ==> complied(fetched) && complied(picked) && after == w2 && exists|
                text: Seq<char>,
            | #[trigger]
                wrote(picked, text) && offer_in(text, response) == resolved
        }),
{
    let response = within(staging, "release.json"@);
    channels_are_described_apart();
    lemma_description_request(setting, description_address(channel), response);
    helpers_are_asked(response, response);
    let (fetched, w1) = w.run(
        description_request(setting.version@, description_address(channel), response),
    );
    let (picked, w2) = w1.run(selection_request(response));
    if fit(offer) {
        described_offer_is_read(offer, response);
    }
    if wrote(picked, description(offer)) {
        lemma_decoded(picked->Ok_0.stdout, description(offer));
    }
    if offer_resolved(w, setting, channel, staging).0 is Ok {
        let text = decode_utf8(picked->Ok_0.stdout);
        lemma_decoded(picked->Ok_0.stdout, text);
        assert(wrote(picked, text));
    }
}

/// The first thing that is done to find the release that a channel offers is to ask for the
/// description at the address of that channel.
pub proof fn channel_is_asked_for_first(w: World, setting: Setting, channel: Channel, staging: Seq<u8>)
    ensures
        ({
            let response = within(staging, "release.json"@);
            let deeds = offer_deeds(w, setting, channel, staging);
            deeds.len() > 0 && deeds[0] == Deed::Run(
                description_request(setting.version@, description_address(channel), response),
            )
        }),
{
    reveal(offer_deeds);
    channels_are_described_apart();
    lemma_description_request(
        setting,
        description_address(channel),
        within(staging, "release.json"@),
    );
}

/// The line in which `sha256sum` reports a digest is taken for that digest, whatever follows it, and
/// is accepted exactly if the digest is the expected one.
pub proof fn reported_digest_must_be_the_expected_one(
    digest: Seq<char>,
    rest: Seq<char>,
    path: Seq<u8>,
    expected: Seq<char>,
)
    requires
        exists|bytes: Seq<u8>| bytes.len() == 32 && digest == #[trigger] hexadecimal(bytes),
        rest.len() > 0,
        white(rest[0]),
        is_line(rest),
    ensures
        digest_reported(digest + rest + "\n"@, path, expected) is Ok <==> digest == expected,
{
    let line = digest + rest;
    let none: Seq<char> = seq![];
    digest_is_hexadecimal(digest);
    lemma_digest_line(digest);
    assert(is_line(line)) by {
        assert forall|k: int| 0 <= k < line.len() implies line[k] != '\n' by {
            if k < digest.len() {
                assert(line[k] == digest[k]);
                assert(!white(digest[k]));
            } else {
                assert(line[k] == rest[k - digest.len()]);
            }
        }
        assert(line.last() == rest.last());
    }
    lemma_first_line(line, none);
    assert(line + "\n"@ + none =~= digest + rest + "\n"@);
    assert(lines(none) =~= seq![]);
    assert(lines(digest + rest + "\n"@) =~= seq![line]);
    first_word_is_found(none, digest, rest);
    assert(none + digest + rest =~= line);
}

/// A report is accepted only if it is one line, whose first word is the expected digest, and that is
/// a digest.
pub proof fn accepted_report_names_the_digest(text: Seq<char>, path: Seq<u8>, expected: Seq<char>)
    requires
        digest_reported(text, path, expected) is Ok,
    ensures
        lines(text).len() == 1,
        first_word(lines(text)[0]) == Some(expected),
        exists|bytes: Seq<u8>| bytes.len() == 32 && expected == #[trigger] hexadecimal(bytes),
{
    digest_is_hexadecimal(expected);
}

/// An archive is accepted only if `sha256sum` finds the announced digest of that archive, and it is
/// accepted if the one line that it writes begins with that digest.
pub proof fn archive_must_have_its_digest(
    w: World,
    path: Seq<u8>,
    expected: Seq<char>,
    text: Seq<char>,
)
    ensures
        ({
            let (ran, after) = w.run(digest_request(path));
            let (done, last) = digest_verified(w, path, expected);
            &&& last == after
            &&& wrote(ran, text) ==> done == digest_reported(text, path, expected)
            &&& done is Ok ==> complied(ran) && exists|text: Seq<char>| #[trigger]
                wrote(ran, text) && digest_reported(text, path, expected) is Ok
        }),
{
    helpers_are_asked(path, path);
    let (ran, after) = w.run(digest_request(path));
    if wrote(ran, text) {
        lemma_decoded(ran->Ok_0.stdout, text);
    }
    if digest_verified(w, path, expected).0 is Ok {
        let own = decode_utf8(ran->Ok_0.stdout);
        lemma_decoded(ran->Ok_0.stdout, own);
        assert(wrote(ran, own));
    }
}

/// An archive is fetched exactly if it is downloaded from the address of the offer, has the size
/// that the offer announces and has the digest that it announces.
pub proof fn fetched_archive_is_what_was_offered(
    w: World,
    setting: Setting,
    offer: Offer,
    archive: Seq<u8>,
)
    ensures
        ({
            let (loaded, w1) = w.run(
                archive_request(
                    setting.version@,
                    setting.terminal,
                    offer.url,
                    decimal(offer.size as nat),
                    archive,
                ),
            );
            let (done, after) = archive_fetched(w, setting, offer, archive);
            &&& done is Ok <==> complied(loaded) && w1.size(archive) == Ok::<u64, Seq<char>>(
                offer.size,
            ) && digest_verified(w1, archive, offer.sha256).0 is Ok
            &&& done is Ok ==> after == w1.run(digest_request(archive)).1
        }),
{
    reveal(archive_fetched);
    archive_is_asked_for(setting, offer, archive);
    helpers_are_asked(archive, archive);
}

/// An archive is unpacked exactly if `tar` unpacks it into the directory that is given.
pub proof fn archive_is_unpacked_by_tar(w: World, archive: Seq<u8>, destination: Seq<u8>)
    ensures
        ({
            let (ran, after) = w.run(unpacking_request(archive, destination));
            let (done, last) = extracted(w, archive, destination);
            last == after && (done is Ok <==> complied(ran))
        }),
{
    helpers_are_asked(archive, destination);
}

} // verus!
