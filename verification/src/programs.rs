//! The programs that nv runs, and what it makes of their output.

use vstd::prelude::*;
use vstd::utf8::encode_utf8;

use crate::channel::Channel;
use crate::encoding::{decode, decode_lossy, decoded, encode, lossy_text, same_bytes};
use crate::error::{error, verdict, worded, NvError};
use crate::host::{
    failed, group_walked, invocation, looked, ran, settled, told, Attempt, Command, Deed, Ending,
    Entry, Invocation, Listing, Lookup, Names, Output, Session, Sight, Stop, World,
};
use crate::installation::{nvim_binary, validate_nvim_binary};
use crate::layout::{real_directory, require_real_directory};
use crate::path::{shown, UnixPath};
use crate::paths::within;
use crate::release::{
    api_digest, bad_download_url, bad_release_id, bad_sha256, bad_version, is_download_url,
    is_release_id, is_sha256, is_version, parse_api_digest, validate_download_url,
    validate_release_id, validate_sha256, validate_version, ASSET_NAME,
};
use crate::text::{
    contents, decimal, decimal_of, first_word, leading_word, lines, number, parse_number, same,
    signed_decimal, signed_decimal_of, split_lines, trim, trimmed,
};

verus! {

broadcast use group_walked;

/// The directory that the archive of a release holds.
pub const ARCHIVE_ROOT: &'static str = "nvim-linux-x86_64";

/// The version of GitHub's interface that nv speaks.
pub const GITHUB_API_VERSION: &'static str = "2026-03-10";

/// How many bytes GitHub's description of a release may have.
pub const MAX_API_RESPONSE_SIZE: u64 = 10485760;

/// How many bytes a release may have.
pub const MAX_ASSET_SIZE: u64 = 536870912;

/// How long the download of a description may take.
pub const API_TIMEOUT_SECONDS: u64 = 60;

/// How long the download of a release may take.
pub const ASSET_TIMEOUT_SECONDS: u64 = 600;

/// How many bytes of a refused download are shown.
pub const BODY_LIMIT: u64 = 4096;

/// What `jq` picks from GitHub's description of a release: its number, and the address, the
/// digest and the size of the one asset that is asked for, each on a line.
pub const RELEASE_FILTER: &'static str = r#"
      (.assets // error("missing assets")) as $assets
      | ($assets | map(select(.name == $asset))) as $matches
      | if ($matches | length) != 1 then error("expected exactly one asset named '\($asset)'; Neovim may have renamed its Linux x86_64 release asset") else . end
      | ($matches[0]) as $asset_data
      | (.id | if type == "number" and . > 0 and . == floor then tostring else error("invalid release id") end),
        ($asset_data.browser_download_url | if type == "string" and length > 0 then . else error("invalid browser_download_url") end),
        ($asset_data.digest | if type == "string" and length > 0 then . else error("invalid asset digest") end),
        ($asset_data.size | if type == "number" and . > 0 and . == floor then tostring else error("invalid asset size") end)
    "#;

/// What nv knows of the process that it runs in.
#[derive(Debug)]
pub struct Setting {
    /// The number of the process.
    pub process: u32,
    /// Whether the standard error is a terminal.
    pub terminal: bool,
    /// The version of nv.
    pub version: String,
}

/// Whether a program succeeded.
pub open spec fn succeeded(code: Option<i32>) -> bool {
    code == Some(0i32)
}

fn success(output: &Output) -> (yes: bool)
    ensures
        yes == succeeded(output.code),
{
    match output.code {
        Some(code) => code == 0,
        None => false,
    }
}

/// The message for a program that did not succeed.
pub open spec fn program_failure(
    program: Seq<char>,
    operation: Seq<char>,
    ending: Ending,
    path: Option<Seq<u8>>,
) -> Seq<char> {
    let place = match path {
        Some(path) => " for "@ + shown(path),
        None => ""@,
    };
    let status = match ending.code {
        Some(code) => signed_decimal(code as int),
        None => "terminated by signal"@,
    };
    let report = trimmed(lossy_text(ending.stderr));
    let details = if report.len() == 0 {
        ""@
    } else {
        ": "@ + report
    };
    "external program '"@ + program + "' failed during "@ + operation + place + " with status "@
        + status + details
}

/// The bytes of a path that may be missing.
pub open spec fn optional_path(path: Option<&UnixPath>) -> Option<Seq<u8>> {
    match path {
        Some(path) => Some(path@),
        None => None,
    }
}

/// The error for a program that did not succeed.
pub fn command_failure(
    program: &str,
    operation: &str,
    output: &Output,
    path: Option<&UnixPath>,
) -> (cause: NvError)
    ensures
        cause@ == program_failure(
            program@,
            operation@,
            output.deep_view(),
            optional_path(path),
        ),
{
    let place = match path {
        Some(path) => " for ".to_owned().concat(path.display().as_str()),
        None => "".to_owned(),
    };
    let status = match output.code {
        Some(code) => signed_decimal_of(code),
        None => "terminated by signal".to_owned(),
    };
    let stderr = decode_lossy(&output.stderr);
    let report = trim(stderr.as_str());
    let details = if report.is_empty() {
        "".to_owned()
    } else {
        ": ".to_owned().concat(report)
    };
    error(
        "external program '".to_owned().concat(program).concat("' failed during ").concat(
            operation,
        ).concat(place.as_str()).concat(" with status ").concat(status.as_str()).concat(
            details.as_str(),
        ),
    )
}

/// Whether a program that nv needs reports its version.
pub open spec fn program_present(w: World, program: Seq<char>) -> (Result<(), Seq<char>>, World) {
    let (ran, after) = w.run(version_check(program));
    match ran {
        Err(cause) => (
            Err(
                "required program '"@ + program + "' is unavailable while checking its version: "@
                    + cause,
            ),
            after,
        ),
        Ok(ending) => (
            verdict(
                succeeded(ending.code),
                program_failure(program, "version check"@, ending, None),
            ),
            after,
        ),
    }
}

/// How a program is asked for its version.
pub open spec fn version_check(program: Seq<char>) -> Invocation {
    invocation(encode_utf8(program)).arg("--version"@)
}

fn require_program(session: &mut Session, program: &str) -> (done: Result<(), Stop>)
    ensures
        ran(
            *old(session),
            *final(session),
            told(done),
            seq![Deed::Run(version_check(program@))],
            program_present(old(session).world(), program@),
        ),
{
    match session.run(Command::named(program).arg("--version"))? {
        Attempt::Failed(cause) => Err(
            failed(
                "required program '".to_owned().concat(program).concat(
                    "' is unavailable while checking its version: ",
                ).concat(cause.as_str()),
            ),
        ),
        Attempt::Done(output) => {
            if success(&output) {
                Ok(())
            } else {
                Err(Stop::Failed(command_failure(program, "version check", &output, None)))
            }
        },
    }
}

/// Whether the programs report their versions, up to the first that does not.
pub open spec fn programs_present(w: World, programs: Seq<Seq<char>>) -> (
    Result<(), Seq<char>>,
    World,
)
    decreases programs.len(),
{
    if programs.len() == 0 {
        (Ok(()), w)
    } else {
        let (present, after) = program_present(w, programs[0]);
        match present {
            Err(message) => (Err(message), after),
            Ok(()) => programs_present(after, programs.skip(1)),
        }
    }
}

/// What is done for that.
pub open spec fn presence_deeds(w: World, programs: Seq<Seq<char>>) -> Seq<Deed>
    decreases programs.len(),
{
    if programs.len() == 0 {
        seq![]
    } else {
        let (present, after) = program_present(w, programs[0]);
        seq![Deed::Run(version_check(programs[0]))] + match present {
            Err(_) => seq![],
            Ok(()) => presence_deeds(after, programs.skip(1)),
        }
    }
}

/// The programs that nv needs to install a release.
pub open spec fn required_programs() -> Seq<Seq<char>> {
    seq!["curl"@, "jq"@, "sha256sum"@, "tar"@]
}

/// Whether the programs that nv needs to install a release can be run.
pub fn preflight_external_programs(session: &mut Session) -> (done: Result<(), Stop>)
    ensures
        ran(
            *old(session),
            *final(session),
            told(done),
            presence_deeds(old(session).world(), required_programs()),
            programs_present(old(session).world(), required_programs()),
        ),
{
    proof {
        reveal_with_fuel(programs_present, 5);
        reveal_with_fuel(presence_deeds, 5);
        let all = required_programs();
        assert(all.skip(1).skip(1).skip(1).skip(1) =~= seq![]);
    }
    require_program(session, "curl")?;
    require_program(session, "jq")?;
    require_program(session, "sha256sum")?;
    require_program(session, "tar")?;
    Ok(())
}

/// How `curl` is run to download `url` into the file `destination`.
pub open spec fn curl(
    setting: Setting,
    url: Seq<char>,
    destination: Seq<u8>,
    api_request: bool,
    max_size: nat,
    timeout_seconds: nat,
) -> Invocation {
    let base = invocation(encode_utf8("curl"@)).arg("--show-error"@).arg("--fail-with-body"@).arg(
        "--location"@,
    ).arg("--proto"@).arg("=https"@).arg("--proto-redir"@).arg("=https"@).arg(
        "--connect-timeout"@,
    ).arg("15"@).arg("--max-time"@).arg(decimal(timeout_seconds)).arg("--max-filesize"@).arg(
        decimal(max_size),
    ).arg("--header"@).arg("User-Agent: nv/"@ + setting.version@).arg("--output"@).arg_bytes(
        destination,
    );
    let quiet = if !api_request && setting.terminal {
        Invocation { report: true, ..base.arg("--progress-bar"@) }
    } else {
        base.arg("--silent"@)
    };
    let described = if api_request {
        quiet.arg("--header"@).arg("Accept: application/vnd.github+json"@).arg("--header"@).arg(
            "X-GitHub-Api-Version: "@ + GITHUB_API_VERSION@,
        )
    } else {
        quiet
    };
    described.arg(url)
}

/// What a refused download leaves, for a message.
pub open spec fn response_body(body: Seq<char>) -> Seq<char> {
    if trimmed(body).len() == 0 {
        ""@
    } else {
        "; response body: "@ + trimmed(body)
    }
}

/// Downloads `url` into the file `destination`.
pub open spec fn downloaded(
    w: World,
    setting: Setting,
    url: Seq<char>,
    destination: Seq<u8>,
    api_request: bool,
    max_size: nat,
    timeout_seconds: nat,
) -> (Result<(), Seq<char>>, World) {
    let (ran, after) = w.run(
        curl(setting, url, destination, api_request, max_size, timeout_seconds),
    );
    match ran {
        Err(cause) => (
            Err(
                "failed to run curl for "@ + url + " into "@ + shown(destination) + ": "@ + cause,
            ),
            after,
        ),
        Ok(ending) => (
            verdict(
                succeeded(ending.code),
                program_failure("curl"@, "HTTPS download"@, ending, Some(destination))
                    + response_body(after.head(destination, BODY_LIMIT)),
            ),
            after,
        ),
    }
}

/// What is done for that, where `command` runs `curl`.
pub open spec fn download_deeds(w: World, command: Invocation, destination: Seq<u8>) -> Seq<Deed> {
    seq![Deed::Run(command)] + match w.run(command).0 {
        Ok(ending) => if succeeded(ending.code) {
            seq![]
        } else {
            seq![Deed::ReadHead(destination, BODY_LIMIT)]
        },
        Err(_) => seq![],
    }
}

/// Downloads `url` into the file `destination`.
pub fn curl_to_file(
    session: &mut Session,
    setting: &Setting,
    url: &str,
    destination: &UnixPath,
    api_request: bool,
    max_size: u64,
    timeout_seconds: u64,
) -> (done: Result<(), Stop>)
    ensures
        ran(
            *old(session),
            *final(session),
            told(done),
            download_deeds(
                old(session).world(),
                curl(
                    *setting,
                    url@,
                    destination@,
                    api_request,
                    max_size as nat,
                    timeout_seconds as nat,
                ),
                destination@,
            ),
            downloaded(
                old(session).world(),
                *setting,
                url@,
                destination@,
                api_request,
                max_size as nat,
                timeout_seconds as nat,
            ),
        ),
{
    let mut command = Command::named("curl").arg("--show-error").arg("--fail-with-body").arg(
        "--location",
    ).arg("--proto").arg("=https").arg("--proto-redir").arg("=https").arg("--connect-timeout").arg(
        "15",
    ).arg("--max-time").arg(decimal_of(timeout_seconds as u128).as_str()).arg(
        "--max-filesize",
    ).arg(decimal_of(max_size as u128).as_str()).arg("--header").arg(
        "User-Agent: nv/".to_owned().concat(setting.version.as_str()).as_str(),
    ).arg("--output").arg_path(destination);
    if !api_request && setting.terminal {
        command = command.arg("--progress-bar").reporting();
    } else {
        command = command.arg("--silent");
    }
    if api_request {
        command = command.arg("--header").arg("Accept: application/vnd.github+json").arg(
            "--header",
        ).arg("X-GitHub-Api-Version: ".to_owned().concat(GITHUB_API_VERSION).as_str());
    }
    command = command.arg(url);
    let output = match session.run(command)? {
        Attempt::Done(output) => output,
        Attempt::Failed(cause) => return Err(
            failed(
                "failed to run curl for ".to_owned().concat(url).concat(" into ").concat(
                    destination.display().as_str(),
                ).concat(": ").concat(cause.as_str()),
            ),
        ),
    };
    if success(&output) {
        return Ok(());
    }
    let failure = command_failure("curl", "HTTPS download", &output, Some(destination));
    let body = session.read_head(destination, BODY_LIMIT)?;
    let shown_body = trim(body.as_str());
    let ending = if shown_body.is_empty() {
        "".to_owned()
    } else {
        "; response body: ".to_owned().concat(shown_body)
    };
    Err(failed(failure.0.concat(ending.as_str())))
}

/// A release as GitHub offers it.
#[derive(Debug)]
pub struct RemoteRelease {
    pub id: String,
    pub url: String,
    pub sha256: String,
    pub size: u64,
}

/// The contents of a `RemoteRelease`.
pub struct Offer {
    pub id: Seq<char>,
    pub url: Seq<char>,
    pub sha256: Seq<char>,
    pub size: u64,
}

impl DeepView for RemoteRelease {
    type V = Offer;

    open spec fn deep_view(&self) -> Offer {
        Offer { id: self.id@, url: self.url@, sha256: self.sha256@, size: self.size }
    }
}

/// The size of an asset, in bytes, as GitHub's description at `response` gives it.
pub open spec fn asset_size(text: Seq<char>, response: Seq<u8>) -> Result<u64, Seq<char>> {
    match number(text) {
        Err(fault) => Err(
            "invalid asset size '"@ + text + "' from "@ + shown(response) + ": "@
                + fault.message(),
        ),
        Ok(size) => if size == 0 {
            Err("asset size from "@ + shown(response) + " must be greater than zero"@)
        } else if size > MAX_ASSET_SIZE {
            Err(
                "GitHub reports an asset size of "@ + decimal(size) + " bytes from "@ + shown(
                    response,
                ) + ", exceeding nv's "@ + decimal(MAX_ASSET_SIZE as nat)
                    + " byte safety limit; raise MAX_ASSET_SIZE if this is an expected Neovim release size"@,
            )
        } else {
            Ok(size as u64)
        },
    }
}

/// The release in what `jq` picked from GitHub's description at `response`.
pub open spec fn offer_in(text: Seq<char>, response: Seq<u8>) -> Result<Offer, Seq<char>> {
    let found = lines(text);
    if found.len() != 4 {
        Err(
            "jq produced "@ + decimal(found.len()) + " release metadata fields for "@ + shown(
                response,
            ) + ", expected exactly 4"@,
        )
    } else if !is_release_id(found[0]) {
        Err(bad_release_id(found[0]))
    } else if !is_download_url(found[1]) {
        Err(bad_download_url(found[1]))
    } else {
        match api_digest(found[2]) {
            Err(message) => Err(message),
            Ok(sha256) => match asset_size(found[3], response) {
                Err(message) => Err(message),
                Ok(size) => Ok(Offer { id: found[0], url: found[1], sha256, size }),
            },
        }
    }
}

/// The size of an asset, in bytes, as GitHub's description at `response` gives it.
pub fn parse_asset_size(text: &str, response: &UnixPath) -> (size: Result<u64, NvError>)
    ensures
        worded(size) == asset_size(text@, response@),
{
    let size: u64 = match parse_number(text) {
        Ok(size) => size,
        Err(fault) => return Err(
            error(
                "invalid asset size '".to_owned().concat(text).concat("' from ").concat(
                    response.display().as_str(),
                ).concat(": ").concat(fault.describe().as_str()),
            ),
        ),
    };
    if size == 0 {
        return Err(
            error(
                "asset size from ".to_owned().concat(response.display().as_str()).concat(
                    " must be greater than zero",
                ),
            ),
        );
    }
    if size > MAX_ASSET_SIZE {
        return Err(
            error(
                "GitHub reports an asset size of ".to_owned().concat(
                    decimal_of(size as u128).as_str(),
                ).concat(" bytes from ").concat(response.display().as_str()).concat(
                    ", exceeding nv's ",
                ).concat(decimal_of(MAX_ASSET_SIZE as u128).as_str()).concat(
                    " byte safety limit; raise MAX_ASSET_SIZE if this is an expected Neovim release size",
                ),
            ),
        );
    }
    Ok(size)
}

/// The release in what `jq` picked from GitHub's description at `response`.
pub fn parse_release(text: &str, response: &UnixPath) -> (release: Result<RemoteRelease, NvError>)
    ensures
        match release {
            Ok(release) => offer_in(text@, response@) == Ok::<Offer, Seq<char>>(
                release.deep_view(),
            ),
            Err(cause) => offer_in(text@, response@) == Err::<Offer, Seq<char>>(cause@),
        },
{
    let found = split_lines(text);
    assert(contents(found@) == lines(text@));
    assert(found.len() == lines(text@).len());
    if found.len() != 4 {
        return Err(
            error(
                "jq produced ".to_owned().concat(decimal_of(found.len() as u128).as_str()).concat(
                    " release metadata fields for ",
                ).concat(response.display().as_str()).concat(", expected exactly 4"),
            ),
        );
    }
    assert(lines(text@)[0] == found@[0]@);
    assert(lines(text@)[1] == found@[1]@);
    assert(lines(text@)[2] == found@[2]@);
    assert(lines(text@)[3] == found@[3]@);
    validate_release_id(found[0].as_str())?;
    validate_download_url(found[1].as_str())?;
    let sha256 = parse_api_digest(found[2].as_str())?;
    let size: u64 = parse_asset_size(found[3].as_str(), response)?;
    Ok(RemoteRelease { id: found[0].clone(), url: found[1].clone(), sha256, size })
}

/// How `jq` is run on GitHub's description at `response`.
pub open spec fn jq(response: Seq<u8>) -> Invocation {
    invocation(encode_utf8("jq"@)).arg("--raw-output"@).arg("--exit-status"@).arg("--arg"@).arg(
        "asset"@,
    ).arg(ASSET_NAME@).arg(RELEASE_FILTER@).arg_bytes(response)
}

/// The release that GitHub's description at `response` offers.
pub open spec fn offer_described(w: World, response: Seq<u8>) -> (Result<Offer, Seq<char>>, World) {
    let (ran, after) = w.run(jq(response));
    match ran {
        Err(cause) => (
            Err(
                "failed to run jq for GitHub release metadata "@ + shown(response) + ": "@ + cause,
            ),
            after,
        ),
        Ok(ending) => if !succeeded(ending.code) {
            (
                Err(
                    program_failure(
                        "jq"@,
                        "strict GitHub release metadata extraction"@,
                        ending,
                        Some(response),
                    ),
                ),
                after,
            )
        } else {
            match decoded(ending.stdout) {
                Err(cause) => (
                    Err(
                        "jq produced non-UTF-8 release metadata for "@ + shown(response) + ": "@
                            + cause,
                    ),
                    after,
                ),
                Ok(text) => (offer_in(text, response), after),
            }
        },
    }
}

/// The release that a channel offers, whose description is downloaded into `staging`.
pub open spec fn offer_resolved(w: World, setting: Setting, channel: Channel, staging: Seq<u8>) -> (
    Result<Offer, Seq<char>>,
    World,
) {
    let response = within(staging, "release.json"@);
    let (fetched, w1) = downloaded(
        w,
        setting,
        channel.url(),
        response,
        true,
        MAX_API_RESPONSE_SIZE as nat,
        API_TIMEOUT_SECONDS as nat,
    );
    match fetched {
        Err(message) => (Err(message), w1),
        Ok(()) => offer_described(w1, response),
    }
}

/// How `curl` is run to download the description of what a channel offers.
pub open spec fn api_request(setting: Setting, channel: Channel, response: Seq<u8>) -> Invocation {
    curl(
        setting,
        channel.url(),
        response,
        true,
        MAX_API_RESPONSE_SIZE as nat,
        API_TIMEOUT_SECONDS as nat,
    )
}

/// What is done to find the release that a channel offers.
#[verifier::opaque]
pub open spec fn offer_deeds(w: World, setting: Setting, channel: Channel, staging: Seq<u8>) -> Seq<
    Deed,
> {
    let response = within(staging, "release.json"@);
    let fetched = downloaded(
        w,
        setting,
        channel.url(),
        response,
        true,
        MAX_API_RESPONSE_SIZE as nat,
        API_TIMEOUT_SECONDS as nat,
    ).0;
    download_deeds(w, api_request(setting, channel, response), response) + match fetched {
        Err(_) => seq![],
        Ok(()) => seq![Deed::Run(jq(response))],
    }
}

/// The release that a channel offers, whose description is downloaded into `staging`.
pub fn resolve_release(
    session: &mut Session,
    setting: &Setting,
    channel: Channel,
    staging: &UnixPath,
) -> (done: Result<RemoteRelease, Stop>)
    ensures
        ran(
            *old(session),
            *final(session),
            told(done),
            offer_deeds(old(session).world(), *setting, channel, staging@),
            offer_resolved(old(session).world(), *setting, channel, staging@),
        ),
{
    proof {
        reveal(offer_deeds);
    }
    let response_path = staging.join("release.json");
    curl_to_file(
        session,
        setting,
        channel.api_url(),
        &response_path,
        true,
        MAX_API_RESPONSE_SIZE,
        API_TIMEOUT_SECONDS,
    )?;
    let command = Command::named("jq").arg("--raw-output").arg("--exit-status").arg("--arg").arg(
        "asset",
    ).arg(ASSET_NAME).arg(RELEASE_FILTER).arg_path(&response_path);
    let output = match session.run(command)? {
        Attempt::Done(output) => output,
        Attempt::Failed(cause) => return Err(
            failed(
                "failed to run jq for GitHub release metadata ".to_owned().concat(
                    response_path.display().as_str(),
                ).concat(": ").concat(cause.as_str()),
            ),
        ),
    };
    if !success(&output) {
        return Err(
            Stop::Failed(
                command_failure(
                    "jq",
                    "strict GitHub release metadata extraction",
                    &output,
                    Some(&response_path),
                ),
            ),
        );
    }
    match decode(&output.stdout) {
        Err(cause) => Err(
            failed(
                "jq produced non-UTF-8 release metadata for ".to_owned().concat(
                    response_path.display().as_str(),
                ).concat(": ").concat(cause.as_str()),
            ),
        ),
        Ok(text) => settled(parse_release(text.as_str(), &response_path)),
    }
}

/// Downloads a release into the file `destination`.
pub open spec fn asset_downloaded(w: World, setting: Setting, offer: Offer, destination: Seq<u8>) -> (
    Result<(), Seq<char>>,
    World,
) {
    downloaded(
        w,
        setting,
        offer.url,
        destination,
        false,
        offer.size as nat,
        ASSET_TIMEOUT_SECONDS as nat,
    )
}

/// How `curl` is run to download a release.
pub open spec fn asset_request(setting: Setting, offer: Offer, destination: Seq<u8>) -> Invocation {
    curl(
        setting,
        offer.url,
        destination,
        false,
        offer.size as nat,
        ASSET_TIMEOUT_SECONDS as nat,
    )
}

/// Downloads a release into the file `destination`.
pub fn download_asset(
    session: &mut Session,
    setting: &Setting,
    release: &RemoteRelease,
    destination: &UnixPath,
) -> (done: Result<(), Stop>)
    ensures
        ran(
            *old(session),
            *final(session),
            told(done),
            download_deeds(
                old(session).world(),
                asset_request(*setting, release.deep_view(), destination@),
                destination@,
            ),
            asset_downloaded(
                old(session).world(),
                *setting,
                release.deep_view(),
                destination@,
            ),
        ),
{
    curl_to_file(
        session,
        setting,
        release.url.as_str(),
        destination,
        false,
        release.size,
        ASSET_TIMEOUT_SECONDS,
    )
}

/// Whether the archive at `path` has the size that it was announced with.
pub open spec fn right_size(w: World, path: Seq<u8>, expected: u64) -> Result<(), Seq<char>> {
    match w.size(path) {
        Err(cause) => Err(
            "failed to inspect downloaded archive "@ + shown(path) + ": "@ + cause,
        ),
        Ok(actual) => verdict(
            actual == expected,
            "downloaded archive size mismatch at "@ + shown(path) + ": expected "@ + decimal(
                expected as nat,
            ) + " bytes, got "@ + decimal(actual as nat),
        ),
    }
}

/// Accepts an archive of the size that it was announced with.
pub fn verify_size(session: &mut Session, path: &UnixPath, expected: u64) -> (done: Result<
    (),
    Stop,
>)
    ensures
        looked(
            *old(session),
            *final(session),
            told(done),
            seq![Deed::Measure(path@)],
            right_size(old(session).world(), path@, expected),
        ),
{
    match session.measure(path)? {
        Attempt::Failed(cause) => Err(
            failed(
                "failed to inspect downloaded archive ".to_owned().concat(
                    path.display().as_str(),
                ).concat(": ").concat(cause.as_str()),
            ),
        ),
        Attempt::Done(actual) => {
            if actual == expected {
                Ok(())
            } else {
                Err(
                    failed(
                        "downloaded archive size mismatch at ".to_owned().concat(
                            path.display().as_str(),
                        ).concat(": expected ").concat(
                            decimal_of(expected as u128).as_str(),
                        ).concat(" bytes, got ").concat(decimal_of(actual as u128).as_str()),
                    ),
                )
            }
        },
    }
}

/// Whether `sha256sum`, whose output is `text`, finds the expected digest of the file at `path`.
pub open spec fn digest_reported(text: Seq<char>, path: Seq<u8>, expected: Seq<char>) -> Result<
    (),
    Seq<char>,
> {
    let found = lines(text);
    if found.len() != 1 {
        Err(
            "sha256sum produced "@ + decimal(found.len()) + " lines for "@ + shown(path)
                + ", expected exactly one"@,
        )
    } else {
        match first_word(found[0]) {
            None => Err("sha256sum produced empty output for "@ + shown(path)),
            Some(actual) => if !is_sha256(actual) {
                Err(bad_sha256(actual))
            } else {
                verdict(
                    actual == expected,
                    "SHA-256 mismatch for "@ + shown(path) + ": expected "@ + expected + ", got "@
                        + actual,
                )
            },
        }
    }
}

/// Accepts the output of `sha256sum` if it finds the expected digest of the file at `path`.
pub fn check_digest(text: &str, path: &UnixPath, expected: &str) -> (fine: Result<(), NvError>)
    ensures
        worded(fine) == digest_reported(text@, path@, expected@),
{
    let found = split_lines(text);
    assert(contents(found@) == lines(text@));
    assert(found.len() == lines(text@).len());
    if found.len() != 1 {
        return Err(
            error(
                "sha256sum produced ".to_owned().concat(
                    decimal_of(found.len() as u128).as_str(),
                ).concat(" lines for ").concat(path.display().as_str()).concat(
                    ", expected exactly one",
                ),
            ),
        );
    }
    assert(lines(text@)[0] == found@[0]@);
    let actual = match leading_word(found[0].as_str()) {
        Some(actual) => actual,
        None => return Err(
            error(
                "sha256sum produced empty output for ".to_owned().concat(path.display().as_str()),
            ),
        ),
    };
    validate_sha256(actual)?;
    if !same(actual, expected) {
        return Err(
            error(
                "SHA-256 mismatch for ".to_owned().concat(path.display().as_str()).concat(
                    ": expected ",
                ).concat(expected).concat(", got ").concat(actual),
            ),
        );
    }
    Ok(())
}

/// How `sha256sum` is run on the archive at `path`.
pub open spec fn sha256sum(path: Seq<u8>) -> Invocation {
    invocation(encode_utf8("sha256sum"@)).arg("--binary"@).arg_bytes(path)
}

/// Whether the archive at `path` has the digest that it was announced with.
pub open spec fn digest_verified(w: World, path: Seq<u8>, expected: Seq<char>) -> (
    Result<(), Seq<char>>,
    World,
) {
    let (ran, after) = w.run(sha256sum(path));
    match ran {
        Err(cause) => (
            Err("failed to run sha256sum for "@ + shown(path) + ": "@ + cause),
            after,
        ),
        Ok(ending) => if !succeeded(ending.code) {
            (
                Err(
                    program_failure("sha256sum"@, "archive verification"@, ending, Some(path)),
                ),
                after,
            )
        } else {
            match decoded(ending.stdout) {
                Err(cause) => (
                    Err(
                        "sha256sum produced non-UTF-8 output for "@ + shown(path) + ": "@ + cause,
                    ),
                    after,
                ),
                Ok(text) => (digest_reported(text, path, expected), after),
            }
        },
    }
}

/// Accepts an archive with the digest that it was announced with.
pub fn verify_archive_digest(session: &mut Session, path: &UnixPath, expected: &str) -> (done:
    Result<(), Stop>)
    ensures
        ran(
            *old(session),
            *final(session),
            told(done),
            seq![Deed::Run(sha256sum(path@))],
            digest_verified(old(session).world(), path@, expected@),
        ),
{
    let output = match session.run(Command::named("sha256sum").arg("--binary").arg_path(path))? {
        Attempt::Done(output) => output,
        Attempt::Failed(cause) => return Err(
            failed(
                "failed to run sha256sum for ".to_owned().concat(path.display().as_str()).concat(
                    ": ",
                ).concat(cause.as_str()),
            ),
        ),
    };
    if !success(&output) {
        return Err(
            Stop::Failed(
                command_failure("sha256sum", "archive verification", &output, Some(path)),
            ),
        );
    }
    match decode(&output.stdout) {
        Err(cause) => Err(
            failed(
                "sha256sum produced non-UTF-8 output for ".to_owned().concat(
                    path.display().as_str(),
                ).concat(": ").concat(cause.as_str()),
            ),
        ),
        Ok(text) => settled(check_digest(text.as_str(), path, expected)),
    }
}

/// How `tar` is run to extract the archive at `archive` into the directory `destination`.
pub open spec fn tar(archive: Seq<u8>, destination: Seq<u8>) -> Invocation {
    invocation(encode_utf8("tar"@)).arg("--extract"@).arg("--gzip"@).arg("--file"@).arg_bytes(
        archive,
    ).arg("--directory"@).arg_bytes(destination).arg("--no-same-owner"@).arg(
        "--no-same-permissions"@,
    )
}

/// Extracts the archive at `archive` into the directory `destination`.
pub open spec fn extracted(w: World, archive: Seq<u8>, destination: Seq<u8>) -> (
    Result<(), Seq<char>>,
    World,
) {
    let (ran, after) = w.run(tar(archive, destination));
    match ran {
        Err(cause) => (
            Err(
                "failed to run tar for "@ + shown(archive) + " into "@ + shown(destination) + ": "@
                    + cause,
            ),
            after,
        ),
        Ok(ending) => (
            verdict(
                succeeded(ending.code),
                program_failure("tar"@, "archive extraction"@, ending, Some(archive)),
            ),
            after,
        ),
    }
}

/// Extracts the archive at `archive` into the directory `destination`.
pub fn extract_archive(session: &mut Session, archive: &UnixPath, destination: &UnixPath) -> (done:
    Result<(), Stop>)
    ensures
        ran(
            *old(session),
            *final(session),
            told(done),
            seq![Deed::Run(tar(archive@, destination@))],
            extracted(old(session).world(), archive@, destination@),
        ),
{
    let command = Command::named("tar").arg("--extract").arg("--gzip").arg("--file").arg_path(
        archive,
    ).arg("--directory").arg_path(destination).arg("--no-same-owner").arg(
        "--no-same-permissions",
    );
    match session.run(command)? {
        Attempt::Failed(cause) => Err(
            failed(
                "failed to run tar for ".to_owned().concat(archive.display().as_str()).concat(
                    " into ",
                ).concat(destination.display().as_str()).concat(": ").concat(cause.as_str()),
            ),
        ),
        Attempt::Done(output) => {
            if success(&output) {
                Ok(())
            } else {
                Err(
                    Stop::Failed(
                        command_failure("tar", "archive extraction", &output, Some(archive)),
                    ),
                )
            }
        },
    }
}

/// The directory that an archive was extracted to, if it holds nothing but the release.
pub open spec fn extracted_root(w: World, extraction: Seq<u8>) -> Result<Seq<u8>, Seq<char>> {
    match w.listing(extraction) {
        Names::Unreadable(cause) => Err(
            "failed to inspect extracted archive "@ + shown(extraction) + ": "@ + cause,
        ),
        Names::Broken(cause) => Err(
            "failed to read an entry in extracted archive "@ + shown(extraction) + ": "@ + cause,
        ),
        Names::Names(names) => if names.len() != 1 || names[0] != encode_utf8(ARCHIVE_ROOT@) {
            Err(
                "unexpected archive layout in "@ + shown(extraction)
                    + ": expected exactly one top-level directory named "@ + ARCHIVE_ROOT@,
            )
        } else {
            let root = within(extraction, ARCHIVE_ROOT@);
            match w.sight(root) {
                Sight::Absent(cause) | Sight::Failed(cause) => Err(
                    "failed to inspect extracted installation "@ + shown(root) + ": "@ + cause,
                ),
                Sight::Present(entry) => match real_directory(root, entry) {
                    Err(message) => Err(message),
                    Ok(()) => match nvim_binary(w, within(root, "bin/nvim"@)) {
                        Err(message) => Err(message),
                        Ok(()) => Ok(root),
                    },
                },
            }
        },
    }
}

/// What is done to find that directory.
pub open spec fn root_deeds(w: World, extraction: Seq<u8>) -> Seq<Deed> {
    let root = within(extraction, ARCHIVE_ROOT@);
    seq![Deed::List(extraction)] + match w.listing(extraction) {
        Names::Names(names) => if names.len() == 1 && names[0] == encode_utf8(ARCHIVE_ROOT@) {
            seq![Deed::Inspect(root)] + match w.sight(root) {
                Sight::Present(Entry::Directory(_)) => seq![
                    Deed::Inspect(within(root, "bin/nvim"@)),
                ],
                _ => seq![],
            }
        } else {
            seq![]
        },
        _ => seq![],
    }
}

/// The directory that an archive was extracted to, if it holds nothing but the release.
pub fn validate_extracted_layout(session: &mut Session, extraction: &UnixPath) -> (done: Result<
    UnixPath,
    Stop,
>)
    ensures
        looked(
            *old(session),
            *final(session),
            told(done),
            root_deeds(old(session).world(), extraction@),
            extracted_root(old(session).world(), extraction@),
        ),
{
    let names = match session.list(extraction)? {
        Listing::Names(names) => names,
        Listing::Unreadable(cause) => return Err(
            failed(
                "failed to inspect extracted archive ".to_owned().concat(
                    extraction.display().as_str(),
                ).concat(": ").concat(cause.as_str()),
            ),
        ),
        Listing::Broken(cause) => return Err(
            failed(
                "failed to read an entry in extracted archive ".to_owned().concat(
                    extraction.display().as_str(),
                ).concat(": ").concat(cause.as_str()),
            ),
        ),
    };
    assert(names.deep_view().len() == names.len());
    assert(names.len() > 0 ==> names.deep_view()[0] == names@[0]@);
    if names.len() != 1 || !same_bytes(&names[0].bytes, &encode(ARCHIVE_ROOT)) {
        return Err(
            failed(
                "unexpected archive layout in ".to_owned().concat(
                    extraction.display().as_str(),
                ).concat(": expected exactly one top-level directory named ").concat(ARCHIVE_ROOT),
            ),
        );
    }
    let root = extraction.join(ARCHIVE_ROOT);
    match session.inspect(&root)? {
        Lookup::Absent(cause) | Lookup::Failed(cause) => return Err(
            failed(
                "failed to inspect extracted installation ".to_owned().concat(
                    root.display().as_str(),
                ).concat(": ").concat(cause.as_str()),
            ),
        ),
        Lookup::Present(entry) => settled(require_real_directory(&root, entry))?,
    }
    validate_nvim_binary(session, &root.join("bin/nvim"))?;
    Ok(root)
}

/// The version in what the Neovim at `executable` reports.
pub open spec fn version_in(text: Seq<char>, executable: Seq<u8>) -> Result<Seq<char>, Seq<char>> {
    let found = lines(text);
    if found.len() == 0 {
        Err("staged Neovim "@ + shown(executable) + " produced no version"@)
    } else if is_version(found[0]) {
        Ok(found[0])
    } else {
        Err(bad_version(found[0], executable))
    }
}

/// The version in what the Neovim at `executable` reports.
pub fn parse_version(text: &str, executable: &UnixPath) -> (version: Result<String, NvError>)
    ensures
        match version {
            Ok(version) => version_in(text@, executable@) == Ok::<Seq<char>, Seq<char>>(version@),
            Err(cause) => version_in(text@, executable@) == Err::<Seq<char>, Seq<char>>(cause@),
        },
{
    let found = split_lines(text);
    assert(contents(found@) == lines(text@));
    assert(found.len() == lines(text@).len());
    if found.len() == 0 {
        return Err(
            error(
                "staged Neovim ".to_owned().concat(executable.display().as_str()).concat(
                    " produced no version",
                ),
            ),
        );
    }
    assert(lines(text@)[0] == found@[0]@);
    validate_version(found[0].as_str(), executable)?;
    Ok(found[0].clone())
}

/// How the Neovim in the directory `installation` is asked for its version.
pub open spec fn staged_check(installation: Seq<u8>) -> Invocation {
    invocation(within(installation, "bin/nvim"@)).arg("--version"@)
}

/// The version of the Neovim in the directory `installation`.
pub open spec fn version_reported(w: World, installation: Seq<u8>) -> (
    Result<Seq<char>, Seq<char>>,
    World,
) {
    let executable = within(installation, "bin/nvim"@);
    let (ran, after) = w.run(staged_check(installation));
    match ran {
        Err(cause) => (
            Err(
                "failed to run staged Neovim "@ + shown(executable) + " --version: "@ + cause,
            ),
            after,
        ),
        Ok(ending) => if !succeeded(ending.code) {
            (
                Err(
                    program_failure(
                        shown(executable),
                        "staged Neovim version check"@,
                        ending,
                        Some(executable),
                    ),
                ),
                after,
            )
        } else {
            match decoded(ending.stdout) {
                Err(cause) => (
                    Err(
                        "staged Neovim "@ + shown(executable)
                            + " produced non-UTF-8 version output: "@ + cause,
                    ),
                    after,
                ),
                Ok(text) => (version_in(text, executable), after),
            }
        },
    }
}

/// The version of the Neovim in the directory `installation`.
pub fn staged_version(session: &mut Session, installation: &UnixPath) -> (done: Result<
    String,
    Stop,
>)
    ensures
        ran(
            *old(session),
            *final(session),
            told(done),
            seq![Deed::Run(staged_check(installation@))],
            version_reported(old(session).world(), installation@),
        ),
{
    let executable = installation.join("bin/nvim");
    let shown_path = executable.display();
    let output = match session.run(Command::at(&executable).arg("--version"))? {
        Attempt::Done(output) => output,
        Attempt::Failed(cause) => return Err(
            failed(
                "failed to run staged Neovim ".to_owned().concat(shown_path.as_str()).concat(
                    " --version: ",
                ).concat(cause.as_str()),
            ),
        ),
    };
    if !success(&output) {
        return Err(
            Stop::Failed(
                command_failure(
                    shown_path.as_str(),
                    "staged Neovim version check",
                    &output,
                    Some(&executable),
                ),
            ),
        );
    }
    match decode(&output.stdout) {
        Err(cause) => Err(
            failed(
                "staged Neovim ".to_owned().concat(shown_path.as_str()).concat(
                    " produced non-UTF-8 version output: ",
                ).concat(cause.as_str()),
            ),
        ),
        Ok(text) => settled(parse_version(text.as_str(), &executable)),
    }
}

} // verus!
