//! What nv notes down about an installed release, and the names of the directories that hold them.

use vstd::prelude::*;

use crate::channel::{channel_found_by_name, channel_named, Channel};
use crate::error::{error, NvError};
use crate::path::{shown, UnixPath};
use crate::paths::install_name;
use crate::release::{
    bad_release_id, bad_sha256, bad_version, is_hex, is_release_id, is_sha256, is_version,
    validate_release_id, validate_sha256, validate_version, ASSET_NAME,
};
use crate::text::{
    begins, contents, cut, decimal, decimal_of, is_control, is_digit, is_line, lemma_cut,
    lemma_first_line, lines, same, split_lines, split_once, strip_prefix,
};

verus! {

/// A release as nv installed it.
#[derive(Debug)]
pub struct InstallMetadata {
    pub channel: Channel,
    pub release: String,
    pub version: String,
    pub asset: String,
    pub sha256: String,
}

/// The contents of an `InstallMetadata`.
pub struct Record {
    pub channel: Channel,
    pub release: Seq<char>,
    pub version: Seq<char>,
    pub asset: Seq<char>,
    pub sha256: Seq<char>,
}

impl View for InstallMetadata {
    type V = Record;

    open spec fn view(&self) -> Record {
        Record {
            channel: self.channel,
            release: self.release@,
            version: self.version@,
            asset: self.asset@,
            sha256: self.sha256@,
        }
    }
}

impl DeepView for InstallMetadata {
    type V = Record;

    open spec fn deep_view(&self) -> Record {
        self@
    }
}

impl Record {
    /// Whether every field is acceptable.
    pub open spec fn valid(self) -> bool {
        &&& is_release_id(self.release)
        &&& is_version(self.version)
        &&& self.asset == ASSET_NAME@
        &&& is_sha256(self.sha256)
    }
}

/// Whether `key` is the name of a metadata field.
pub open spec fn is_field(key: Seq<char>) -> bool {
    key == "channel"@ || key == "release"@ || key == "version"@ || key == "asset"@ || key
        == "sha256"@
}

/// The fields that the lines of a metadata file set, each of them once.
pub open spec fn fields(text: Seq<Seq<char>>, path: Seq<u8>) -> Result<
    Map<Seq<char>, Seq<char>>,
    Seq<char>,
>
    decreases text.len(),
{
    if text.len() == 0 {
        Ok(Map::empty())
    } else {
        match fields(text.drop_last(), path) {
            Err(message) => Err(message),
            Ok(known) => if text.last().len() == 0 {
                Err(
                    "malformed metadata at "@ + shown(path) + ": empty line "@ + decimal(
                        text.len(),
                    ),
                )
            } else {
                match cut(text.last(), '=') {
                    None => Err(
                        "malformed metadata at "@ + shown(path) + " line "@ + decimal(text.len())
                            + ": expected key=value"@,
                    ),
                    Some((key, value)) => if !is_field(key) {
                        Err("unknown metadata field '"@ + key + "' at "@ + shown(path))
                    } else if known.contains_key(key) {
                        Err("duplicate metadata field '"@ + key + "' at "@ + shown(path))
                    } else {
                        Ok(known.insert(key, value))
                    },
                }
            },
        }
    }
}

/// The message for a metadata file without a field.
pub open spec fn missing_field(key: Seq<char>, path: Seq<u8>) -> Seq<char> {
    "missing metadata field '"@ + key + "' at "@ + shown(path)
}

/// The release that the metadata file at `path` describes if it holds `text`.
pub open spec fn record_in(text: Seq<char>, path: Seq<u8>) -> Result<Record, Seq<char>> {
    match fields(lines(text), path) {
        Err(message) => Err(message),
        Ok(known) => if !known.contains_key("asset"@) {
            Err(missing_field("asset"@, path))
        } else if !known.contains_key("channel"@) {
            Err(missing_field("channel"@, path))
        } else if !known.contains_key("release"@) {
            Err(missing_field("release"@, path))
        } else if !known.contains_key("sha256"@) {
            Err(missing_field("sha256"@, path))
        } else if !known.contains_key("version"@) {
            Err(missing_field("version"@, path))
        } else {
            match channel_named(known["channel"@]) {
                Err(message) => Err(message),
                Ok(channel) => if !is_release_id(known["release"@]) {
                    Err(bad_release_id(known["release"@]))
                } else if !is_version(known["version"@]) {
                    Err(bad_version(known["version"@], path))
                } else if known["asset"@] != ASSET_NAME@ {
                    Err(
                        "unexpected asset '"@ + known["asset"@] + "' in "@ + shown(path)
                            + "; expected "@ + ASSET_NAME@,
                    )
                } else if !is_sha256(known["sha256"@]) {
                    Err(bad_sha256(known["sha256"@]))
                } else {
                    Ok(
                        Record {
                            channel,
                            release: known["release"@],
                            version: known["version"@],
                            asset: known["asset"@],
                            sha256: known["sha256"@],
                        },
                    )
                },
            }
        },
    }
}

/// The metadata file of a release.
pub open spec fn record_text(record: Record) -> Seq<char> {
    "channel="@ + record.channel.name() + "\nrelease="@ + record.release + "\nversion="@
        + record.version + "\nasset="@ + record.asset + "\nsha256="@ + record.sha256 + "\n"@
}

/// A line of a metadata file.
pub open spec fn field_line(key: Seq<char>, value: Seq<char>) -> Seq<char> {
    key.push('=') + value
}

/// What one more line adds to the fields of a metadata file.
proof fn lemma_field(
    text: Seq<Seq<char>>,
    path: Seq<u8>,
    key: Seq<char>,
    value: Seq<char>,
    known: Map<Seq<char>, Seq<char>>,
)
    requires
        fields(text, path) == Ok::<Map<Seq<char>, Seq<char>>, Seq<char>>(known),
        is_field(key),
        !known.contains_key(key),
    ensures
        fields(text.push(field_line(key, value)), path) == Ok::<
            Map<Seq<char>, Seq<char>>,
            Seq<char>,
        >(known.insert(key, value)),
{
    reveal_strlit("channel");
    reveal_strlit("release");
    reveal_strlit("version");
    reveal_strlit("asset");
    reveal_strlit("sha256");
    lemma_cut(key, value, '=');
    assert(text.push(field_line(key, value)).drop_last() =~= text);
}

/// The values of a valid release fit on a line each.
proof fn lemma_values_are_lines(record: Record)
    requires
        record.valid(),
    ensures
        is_line(record.release),
        is_line(record.version),
        is_line(record.asset),
        is_line(record.sha256),
        is_line(record.channel.name()),
        record.release.len() > 0,
        record.version.len() > 0,
        record.asset.len() > 0,
        record.sha256.len() > 0,
        record.channel.name().len() > 0,
{
    reveal_strlit("stable");
    reveal_strlit("nightly");
    reveal_strlit("nvim-linux-x86_64.tar.gz");
    assert forall|k: int| 0 <= k < record.release.len() implies record.release[k] != '\n'
        && record.release[k] != '\r' by {
        assert(is_digit(record.release[k]));
    }
    assert forall|k: int| 0 <= k < record.version.len() implies record.version[k] != '\n'
        && record.version[k] != '\r' by {
        assert(!is_control(record.version[k]));
    }
    assert forall|k: int| 0 <= k < record.sha256.len() implies record.sha256[k] != '\n'
        && record.sha256[k] != '\r' by {
        assert(is_hex(record.sha256[k]));
    }
}

/// The lines of the metadata file of a valid release.
pub proof fn lemma_record_lines(record: Record)
    requires
        record.valid(),
    ensures
        lines(record_text(record)) == seq![
            field_line("channel"@, record.channel.name()),
            field_line("release"@, record.release),
            field_line("version"@, record.version),
            field_line("asset"@, record.asset),
            field_line("sha256"@, record.sha256),
        ],
{
    reveal_strlit("channel");
    reveal_strlit("release");
    reveal_strlit("version");
    reveal_strlit("asset");
    reveal_strlit("sha256");
    reveal_strlit("channel=");
    reveal_strlit("\nrelease=");
    reveal_strlit("\nversion=");
    reveal_strlit("\nasset=");
    reveal_strlit("\nsha256=");
    reveal_strlit("\n");
    lemma_values_are_lines(record);
    let l1 = field_line("channel"@, record.channel.name());
    let l2 = field_line("release"@, record.release);
    let l3 = field_line("version"@, record.version);
    let l4 = field_line("asset"@, record.asset);
    let l5 = field_line("sha256"@, record.sha256);
    let none: Seq<char> = seq![];
    let r5 = l5 + "\n"@ + none;
    let r4 = l4 + "\n"@ + r5;
    let r3 = l3 + "\n"@ + r4;
    let r2 = l2 + "\n"@ + r3;
    let r1 = l1 + "\n"@ + r2;
    assert(record_text(record) =~= r1);
    lemma_first_line(l5, none);
    lemma_first_line(l4, r5);
    lemma_first_line(l3, r4);
    lemma_first_line(l2, r3);
    lemma_first_line(l1, r2);
    assert(lines(none) =~= seq![]);
    assert(lines(r1) =~= seq![l1, l2, l3, l4, l5]);
}

/// What nv notes down about a release, it reads back unchanged.
pub proof fn metadata_read_back(record: Record, path: Seq<u8>)
    requires
        record.valid(),
    ensures
        record_in(record_text(record), path) == Ok::<Record, Seq<char>>(record),
{
    lemma_record_lines(record);
    channel_found_by_name(record.channel);
    lemma_field_names();
    let none: Seq<Seq<char>> = seq![];
    let l1 = none.push(field_line("channel"@, record.channel.name()));
    let l2 = l1.push(field_line("release"@, record.release));
    let l3 = l2.push(field_line("version"@, record.version));
    let l4 = l3.push(field_line("asset"@, record.asset));
    let l5 = l4.push(field_line("sha256"@, record.sha256));
    let m0: Map<Seq<char>, Seq<char>> = Map::empty();
    let m1 = m0.insert("channel"@, record.channel.name());
    let m2 = m1.insert("release"@, record.release);
    let m3 = m2.insert("version"@, record.version);
    let m4 = m3.insert("asset"@, record.asset);
    lemma_field(none, path, "channel"@, record.channel.name(), m0);
    lemma_field(l1, path, "release"@, record.release, m1);
    lemma_field(l2, path, "version"@, record.version, m2);
    lemma_field(l3, path, "asset"@, record.asset, m3);
    lemma_field(l4, path, "sha256"@, record.sha256, m4);
    assert(lines(record_text(record)) =~= l5);
}

/// The names of the fields differ.
pub proof fn lemma_field_names()
    ensures
        "channel"@ != "release"@,
        "channel"@ != "version"@,
        "channel"@ != "asset"@,
        "channel"@ != "sha256"@,
        "release"@ != "version"@,
        "release"@ != "asset"@,
        "release"@ != "sha256"@,
        "version"@ != "asset"@,
        "version"@ != "sha256"@,
        "asset"@ != "sha256"@,
{
    reveal_strlit("channel");
    reveal_strlit("release");
    reveal_strlit("version");
    reveal_strlit("asset");
    reveal_strlit("sha256");
    assert("channel"@[0] != "release"@[0]);
    assert("channel"@[0] != "version"@[0]);
    assert("release"@[0] != "version"@[0]);
    assert("asset"@.len() != "sha256"@.len());
}

/// Fields with their values, no field twice.
struct Fields {
    pairs: Vec<(String, String)>,
}

impl Fields {
    spec fn hold(self, known: Map<Seq<char>, Seq<char>>) -> bool {
        &&& forall|k: int|
            0 <= k < self.pairs@.len() ==> known.contains_key(#[trigger] self.pairs@[k].0@)
                && known[self.pairs@[k].0@] == self.pairs@[k].1@
        &&& forall|key: Seq<char>| #[trigger]
            known.contains_key(key) ==> exists|k: int|
                0 <= k < self.pairs@.len() && #[trigger] self.pairs@[k].0@ == key
    }

    fn get(&self, key: &str, Ghost(known): Ghost<Map<Seq<char>, Seq<char>>>) -> (value: Option<
        String,
    >)
        requires
            self.hold(known),
        ensures
            match value {
                Some(value) => known.contains_key(key@) && known[key@] == value@,
                None => !known.contains_key(key@),
            },
    {
        let mut at: usize = 0;
        while at < self.pairs.len()
            invariant
                at <= self.pairs.len(),
                self.hold(known),
                forall|k: int| 0 <= k < at ==> self.pairs@[k].0@ != key@,
            decreases self.pairs.len() - at,
        {
            if same(self.pairs[at].0.as_str(), key) {
                return Some(self.pairs[at].1.clone());
            }
            at = at + 1;
        }
        None
    }

    fn read(text: &Vec<String>, path: &UnixPath) -> (found: Result<Fields, NvError>)
        ensures
            match found {
                Ok(found) => match fields(contents(text@), path@) {
                    Ok(known) => found.hold(known),
                    Err(_) => false,
                },
                Err(cause) => fields(contents(text@), path@) == Err::<
                    Map<Seq<char>, Seq<char>>,
                    Seq<char>,
                >(cause@),
            },
    {
        let mut found = Fields { pairs: Vec::new() };
        let ghost mut known: Map<Seq<char>, Seq<char>> = Map::empty();
        let ghost all = contents(text@);
        let mut at: usize = 0;
        assert(all.take(0) =~= seq![]);
        while at < text.len()
            invariant
                at <= text.len(),
                all == contents(text@),
                fields(all.take(at as int), path@) == Ok::<
                    Map<Seq<char>, Seq<char>>,
                    Seq<char>,
                >(known),
                found.hold(known),
            decreases text.len() - at,
        {
            let line = text[at].as_str();
            let ghost next = all.take(at + 1);
            assert(next.drop_last() =~= all.take(at as int));
            assert(next.last() == line@);
            assert(next.len() == at + 1);
            if line.is_empty() {
                proof {
                    lemma_fields_fault(all, path@, at + 1);
                }
                return Err(
                    error(
                        "malformed metadata at ".to_owned().concat(
                            path.display().as_str(),
                        ).concat(": empty line ").concat(decimal_of(at as u128 + 1).as_str()),
                    ),
                );
            }
            match split_once(line, '=') {
                None => {
                    proof {
                        lemma_fields_fault(all, path@, at + 1);
                    }
                    return Err(
                        error(
                            "malformed metadata at ".to_owned().concat(
                                path.display().as_str(),
                            ).concat(" line ").concat(
                                decimal_of(at as u128 + 1).as_str(),
                            ).concat(": expected key=value"),
                        ),
                    );
                },
                Some((key, value)) => {
                    if !(same(key, "channel") || same(key, "release") || same(key, "version")
                        || same(key, "asset") || same(key, "sha256")) {
                        proof {
                            lemma_fields_fault(all, path@, at + 1);
                        }
                        return Err(
                            error(
                                "unknown metadata field '".to_owned().concat(key).concat(
                                    "' at ",
                                ).concat(path.display().as_str()),
                            ),
                        );
                    }
                    if found.get(key, Ghost(known)).is_some() {
                        proof {
                            lemma_fields_fault(all, path@, at + 1);
                        }
                        return Err(
                            error(
                                "duplicate metadata field '".to_owned().concat(key).concat(
                                    "' at ",
                                ).concat(path.display().as_str()),
                            ),
                        );
                    }
                    let ghost before = found.pairs@;
                    let ghost old_known = known;
                    found.pairs.push((key.to_owned(), value.to_owned()));
                    proof {
                        known = known.insert(key@, value@);
                        assert forall|other: Seq<char>| #[trigger]
                            known.contains_key(other) implies exists|k: int|
                            0 <= k < found.pairs@.len() && #[trigger] found.pairs@[k].0@
                                == other by {
                            if other == key@ {
                                assert(found.pairs@[before.len() as int].0@ == other);
                            } else {
                                assert(old_known.contains_key(other));
                                let k = choose|k: int|
                                    0 <= k < before.len() && #[trigger] before[k].0@ == other;
                                assert(found.pairs@[k].0@ == other);
                            }
                        }
                        assert forall|k: int| 0 <= k < found.pairs@.len() implies known.contains_key(
                            #[trigger] found.pairs@[k].0@,
                        ) && known[found.pairs@[k].0@] == found.pairs@[k].1@ by {
                            if k < before.len() {
                                assert(found.pairs@[k] == before[k]);
                                assert(old_known.contains_key(before[k].0@));
                            }
                        }
                    }
                },
            }
            at = at + 1;
        }
        assert(all.take(at as int) =~= all);
        Ok(found)
    }
}

/// A fault in the first lines is the fault of the file.
proof fn lemma_fields_fault(text: Seq<Seq<char>>, path: Seq<u8>, at: int)
    requires
        0 <= at <= text.len(),
        fields(text.take(at), path) is Err,
    ensures
        fields(text, path) == fields(text.take(at), path),
    decreases text.len() - at,
{
    if at < text.len() {
        assert(text.take(at + 1).drop_last() =~= text.take(at));
        lemma_fields_fault(text, path, at + 1);
    } else {
        assert(text.take(at) =~= text);
    }
}

fn no_field(key: &str, path: &UnixPath) -> (cause: NvError)
    ensures
        cause@ == missing_field(key@, path@),
{
    error(
        "missing metadata field '".to_owned().concat(key).concat("' at ").concat(
            path.display().as_str(),
        ),
    )
}

impl InstallMetadata {
    /// Reads the metadata file at `path`, which holds `text`.
    pub fn parse(text: &str, path: &UnixPath) -> (metadata: Result<InstallMetadata, NvError>)
        ensures
            match metadata {
                Ok(metadata) => record_in(text@, path@) == Ok::<Record, Seq<char>>(metadata@),
                Err(cause) => record_in(text@, path@) == Err::<Record, Seq<char>>(cause@),
            },
    {
        let found = Fields::read(&split_lines(text), path)?;
        let ghost known = fields(lines(text@), path@)->Ok_0;
        let asset = match found.get("asset", Ghost(known)) {
            Some(value) => value,
            None => return Err(no_field("asset", path)),
        };
        let channel = match found.get("channel", Ghost(known)) {
            Some(value) => value,
            None => return Err(no_field("channel", path)),
        };
        let release = match found.get("release", Ghost(known)) {
            Some(value) => value,
            None => return Err(no_field("release", path)),
        };
        let sha256 = match found.get("sha256", Ghost(known)) {
            Some(value) => value,
            None => return Err(no_field("sha256", path)),
        };
        let version = match found.get("version", Ghost(known)) {
            Some(value) => value,
            None => return Err(no_field("version", path)),
        };
        let channel = Channel::from_name(channel.as_str())?;
        validate_release_id(release.as_str())?;
        validate_version(version.as_str(), path)?;
        if !same(asset.as_str(), ASSET_NAME) {
            return Err(
                error(
                    "unexpected asset '".to_owned().concat(asset.as_str()).concat("' in ").concat(
                        path.display().as_str(),
                    ).concat("; expected ").concat(ASSET_NAME),
                ),
            );
        }
        validate_sha256(sha256.as_str())?;
        Ok(InstallMetadata { channel, release, version, asset, sha256 })
    }

    /// The metadata file of the release.
    pub fn serialize(&self) -> (text: String)
        ensures
            text@ == record_text(self@),
    {
        "channel=".to_owned().concat(self.channel.as_str()).concat("\nrelease=").concat(
            self.release.as_str(),
        ).concat("\nversion=").concat(self.version.as_str()).concat("\nasset=").concat(
            self.asset.as_str(),
        ).concat("\nsha256=").concat(self.sha256.as_str()).concat("\n")
    }

    /// Another copy of the metadata.
    pub fn copy(&self) -> (copy: InstallMetadata)
        ensures
            copy@ == self@,
    {
        InstallMetadata {
            channel: self.channel,
            release: self.release.clone(),
            version: self.version.clone(),
            asset: self.asset.clone(),
            sha256: self.sha256.clone(),
        }
    }
}

/// The channel and the release that the name of a directory stands for.
pub open spec fn install_named(name: Seq<char>) -> Result<(Channel, Seq<char>), Seq<char>> {
    let stable = Channel::Stable.name() + "-"@;
    let nightly = Channel::Nightly.name() + "-"@;
    if begins(name, stable) {
        named_release(Channel::Stable, name.skip(stable.len() as int))
    } else if begins(name, nightly) {
        named_release(Channel::Nightly, name.skip(nightly.len() as int))
    } else {
        Err(
            "unmanaged installation name '"@ + name
                + "'; expected stable-<release-id> or nightly-<release-id>"@,
        )
    }
}

/// The channel and the release, if it is one.
pub open spec fn named_release(channel: Channel, release: Seq<char>) -> Result<
    (Channel, Seq<char>),
    Seq<char>,
> {
    if is_release_id(release) {
        Ok((channel, release))
    } else {
        Err(bad_release_id(release))
    }
}

/// The channel and the release that the name of a directory stands for.
pub fn parse_install_name<'a>(name: &'a str) -> (parts: Result<(Channel, &'a str), NvError>)
    ensures
        match parts {
            Ok((channel, release)) => install_named(name@) == Ok::<
                (Channel, Seq<char>),
                Seq<char>,
            >((channel, release@)),
            Err(cause) => install_named(name@) == Err::<(Channel, Seq<char>), Seq<char>>(cause@),
        },
{
    let ghost stable = Channel::Stable.name() + "-"@;
    let ghost nightly = Channel::Nightly.name() + "-"@;
    match strip_prefix(name, Channel::Stable.as_str().to_owned().concat("-").as_str()) {
        Some(release) => {
            assert(name@.take(stable.len() as int) =~= stable);
            assert(name@.skip(stable.len() as int) =~= release@);
            validate_release_id(release)?;
            return Ok((Channel::Stable, release));
        },
        None => {},
    }
    match strip_prefix(name, Channel::Nightly.as_str().to_owned().concat("-").as_str()) {
        Some(release) => {
            assert(name@.take(nightly.len() as int) =~= nightly);
            assert(name@.skip(nightly.len() as int) =~= release@);
            validate_release_id(release)?;
            return Ok((Channel::Nightly, release));
        },
        None => {},
    }
    Err(
        error(
            "unmanaged installation name '".to_owned().concat(name).concat(
                "'; expected stable-<release-id> or nightly-<release-id>",
            ),
        ),
    )
}

/// A directory is found under the channel and the release that it is named after.
pub proof fn install_name_read_back(channel: Channel, release: Seq<char>)
    requires
        is_release_id(release),
    ensures
        install_named(install_name(channel, release)) == Ok::<(Channel, Seq<char>), Seq<char>>(
            (channel, release),
        ),
{
    reveal_strlit("stable");
    reveal_strlit("nightly");
    reveal_strlit("-");
    let name = install_name(channel, release);
    let own = channel.name() + "-"@;
    assert(name.take(own.len() as int) =~= own);
    assert(name.skip(own.len() as int) =~= release);
    if channel == Channel::Nightly {
        let stable = Channel::Stable.name() + "-"@;
        assert(name[0] == 'n');
        assert(stable[0] == 's');
        assert(begins(name, stable) ==> name.take(stable.len() as int)[0] == name[0]);
    }
}

/// Only the directory of a release has a name that stands for it.
pub proof fn install_named_only(name: Seq<char>)
    ensures
        install_named(name) matches Ok((channel, release)) ==> is_release_id(release) && name
            == install_name(channel, release),
{
    let stable = Channel::Stable.name() + "-"@;
    let nightly = Channel::Nightly.name() + "-"@;
    if begins(name, stable) {
        assert(name =~= stable + name.skip(stable.len() as int));
    } else if begins(name, nightly) {
        assert(name =~= nightly + name.skip(nightly.len() as int));
    }
}

} // verus!
