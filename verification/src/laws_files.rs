//! What the files and links of the state say: descriptions of releases, notes of changes, and which
//! release a link selects.

use vstd::prelude::*;
use vstd::utf8::*;

use crate::channel::Channel;
use crate::encoding::decoded;
use crate::host::{Entry, Sight, World};
use crate::installation::{
    channel_target, installation_at, nvim_binary, pointer_of, state_of, Installed, Selected,
};
use crate::laws_accepted::{
    digest_is_hexadecimal, hexadecimal, release_id_is_a_number, steers, version_follows_the_name,
};
use crate::laws_words::{channel_is_its_spelling, lemma_decoded, spelling};
use crate::layout::secure_directory;
use crate::metadata::{
    field_line, fields, install_name_read_back, install_named, install_named_only, is_field,
    lemma_field_names, lemma_record_lines, record_in, record_text, Record,
};
use crate::path::{joined, last_name, lies_in, pieces, Piece};
use crate::paths::{within, Places};
use crate::release::is_release_id;
use crate::text::{cut, lemma_cut, lemma_find_bounds, lines};
use crate::transaction::{change_in, change_text, transaction_read_back, Change};

verus! {

/// Whether a text is the number of a release.
pub open spec fn numbers_release(text: Seq<char>) -> bool {
    &&& text.len() > 0
    &&& forall|k: int| 0 <= k < text.len() ==> "0123456789"@.contains(#[trigger] text[k])
    &&& text != "0"@
}

/// Whether a text is the version of a Neovim.
pub open spec fn tells_version(text: Seq<char>) -> bool {
    exists|rest: Seq<char>|
        {
            &&& text == #[trigger] ("NVIM v"@ + rest)
            &&& rest.len() > 0
            &&& forall|k: int| 0 <= k < rest.len() ==> !steers(#[trigger] rest[k])
        }
}

/// Whether a text is a digest.
pub open spec fn is_digest(text: Seq<char>) -> bool {
    exists|bytes: Seq<u8>| bytes.len() == 32 && text == #[trigger] hexadecimal(bytes)
}

/// Whether a release can be described: each of its parts is one.
pub open spec fn describable(record: Record) -> bool {
    &&& numbers_release(record.release)
    &&& tells_version(record.version)
    &&& record.asset == "nvim-linux-x86_64.tar.gz"@
    &&& is_digest(record.sha256)
}

/// The five lines that describe a release.
pub open spec fn description_lines(record: Record) -> Seq<Seq<char>> {
    seq![
        "channel="@ + spelling(record.channel),
        "release="@ + record.release,
        "version="@ + record.version,
        "asset="@ + record.asset,
        "sha256="@ + record.sha256,
    ]
}

proof fn lemma_field_lines(key: Seq<char>, value: Seq<char>)
    ensures
        field_line("channel"@, value) == "channel="@ + value,
        field_line("release"@, value) == "release="@ + value,
        field_line("version"@, value) == "version="@ + value,
        field_line("asset"@, value) == "asset="@ + value,
        field_line("sha256"@, value) == "sha256="@ + value,
        is_field(key) ==> !key.contains('='),
{
    reveal_strlit("channel");
    reveal_strlit("release");
    reveal_strlit("version");
    reveal_strlit("asset");
    reveal_strlit("sha256");
    reveal_strlit("channel=");
    reveal_strlit("release=");
    reveal_strlit("version=");
    reveal_strlit("asset=");
    reveal_strlit("sha256=");
    assert("channel"@.push('=') =~= "channel="@);
    assert("release"@.push('=') =~= "release="@);
    assert("version"@.push('=') =~= "version="@);
    assert("asset"@.push('=') =~= "asset="@);
    assert("sha256"@.push('=') =~= "sha256="@);
}

proof fn lemma_describable(record: Record)
    ensures
        record.valid() == describable(record),
{
    release_id_is_a_number(record.release);
    version_follows_the_name(record.version);
    digest_is_hexadecimal(record.sha256);
}

/// A release that can be described is described in five lines, in this order.
pub proof fn description_has_five_lines(record: Record)
    requires
        describable(record),
    ensures
        lines(record_text(record)) == description_lines(record),
{
    lemma_describable(record);
    lemma_record_lines(record);
    lemma_field_lines("channel"@, spelling(record.channel));
    lemma_field_lines("release"@, record.release);
    lemma_field_lines("version"@, record.version);
    lemma_field_lines("asset"@, record.asset);
    lemma_field_lines("sha256"@, record.sha256);
    assert(lines(record_text(record)) =~= description_lines(record));
}

/// What the fields of a description come from.
proof fn lemma_fields_come_from_lines(text: Seq<Seq<char>>, path: Seq<u8>)
    ensures
        fields(text, path) matches Ok(known) ==> {
            &&& known.dom().finite()
            &&& known.dom().len() == text.len()
            &&& forall|key: Seq<char>| #[trigger]
                known.contains_key(key) ==> is_field(key) && text.contains(
                    field_line(key, known[key]),
                )
        },
    decreases text.len(),
{
    if let Ok(known) = fields(text, path) {
        if text.len() > 0 {
            let rest = text.drop_last();
            lemma_fields_come_from_lines(rest, path);
            let before = fields(rest, path)->Ok_0;
            let (own, value) = cut(text.last(), '=')->0;
            lemma_find_bounds(text.last(), '=');
            assert(text.last() =~= field_line(own, value));
            assert forall|key: Seq<char>| #[trigger] known.contains_key(key) implies is_field(key)
                && text.contains(field_line(key, known[key])) by {
                if key == own {
                    assert(text[text.len() - 1] == field_line(key, known[key]));
                } else {
                    assert(before.contains_key(key));
                    let k = choose|k: int|
                        0 <= k < rest.len() && rest[k] == field_line(key, before[key]);
                    assert(text[k] == field_line(key, known[key]));
                }
            }
            assert(known.dom() =~= before.dom().insert(own));
        } else {
            assert(known.dom() =~= Set::empty());
        }
    }
}

/// Whether a line is one of those that describe a release, and which field it sets.
spec fn sets(record: Record, line: Seq<char>, key: Seq<char>, value: Seq<char>) -> bool {
    &&& line == field_line(key, value)
    &&& {
        ||| key == "channel"@ && value == spelling(record.channel)
        ||| key == "release"@ && value == record.release
        ||| key == "version"@ && value == record.version
        ||| key == "asset"@ && value == record.asset
        ||| key == "sha256"@ && value == record.sha256
    }
}

spec fn is_set(record: Record, line: Seq<char>) -> bool {
    exists|key: Seq<char>, value: Seq<char>| sets(record, line, key, value)
}

/// The fields that some of the lines of a description set, in any order.
proof fn lemma_fields_set(record: Record, text: Seq<Seq<char>>, path: Seq<u8>)
    requires
        text.no_duplicates(),
        forall|k: int|
            0 <= k < text.len() ==> is_set(record, #[trigger] text[k]),
    ensures
        fields(text, path) matches Ok(known) && {
            &&& forall|key: Seq<char>, value: Seq<char>|
                #![trigger field_line(key, value)]
                sets(record, field_line(key, value), key, value) ==> (known.contains_key(key)
                    <==> text.contains(field_line(key, value))) && (known.contains_key(key)
                    ==> known[key] == value)
            &&& forall|key: Seq<char>| #[trigger] known.contains_key(key) ==> is_field(key)
        },
    decreases text.len(),
{
    lemma_field_names();
    if text.len() > 0 {
        let rest = text.drop_last();
        assert(rest.no_duplicates()) by {
            assert forall|i: int, j: int|
                0 <= i < rest.len() && 0 <= j < rest.len() && i != j implies rest[i] != rest[j] by {
                assert(text[i] != text[j]);
            }
        }
        assert forall|k: int| 0 <= k < rest.len() implies is_set(record, #[trigger] rest[k]) by {
            assert(rest[k] == text[k]);
        }
        lemma_fields_set(record, rest, path);
        let before = fields(rest, path)->Ok_0;
        let line = text[text.len() - 1];
        let (own, value) = choose|key: Seq<char>, value: Seq<char>| sets(record, line, key, value);
        lemma_field_lines(own, value);
        assert forall|k: int| 0 <= k < own.len() implies own[k] != '=' by {
            if own[k] == '=' {
                assert(own.contains('='));
            }
        }
        lemma_cut(own, value, '=');
        assert(sets(record, field_line(own, value), own, value));
        if before.contains_key(own) {
            assert(rest.contains(line));
            let j = choose|j: int| 0 <= j < rest.len() && rest[j] == line;
            assert(text[j] == line);
        }
        let known = before.insert(own, value);
        assert(fields(text, path) == Ok::<Map<Seq<char>, Seq<char>>, Seq<char>>(known));
        assert forall|key: Seq<char>, other: Seq<char>|
            #![trigger field_line(key, other)]
            sets(record, field_line(key, other), key, other) implies (known.contains_key(key)
            <==> text.contains(field_line(key, other))) && (known.contains_key(key) ==> known[key]
            == other) by {
            let wanted = field_line(key, other);
            if key == own {
                assert(text[text.len() - 1] == wanted);
            } else {
                lemma_field_lines(key, other);
                assert forall|k: int| 0 <= k < key.len() implies key[k] != '=' by {
                    if key[k] == '=' {
                        assert(key.contains('='));
                    }
                }
                lemma_cut(key, other, '=');
                assert(wanted != line);
                if text.contains(wanted) {
                    let j = choose|j: int| 0 <= j < text.len() && text[j] == wanted;
                    assert(rest[j] == wanted);
                }
                if rest.contains(wanted) {
                    let j = choose|j: int| 0 <= j < rest.len() && rest[j] == wanted;
                    assert(text[j] == wanted);
                }
            }
        }
    }
}

/// Whether the lines of a text are those that describe a release, in any order.
pub open spec fn describes(found: Seq<Seq<char>>, record: Record) -> bool {
    &&& found.len() == 5
    &&& forall|k: int| 0 <= k < 5 ==> found.contains(#[trigger] description_lines(record)[k])
}

/// Five lines among which are five different ones are those.
proof fn lemma_five(found: Seq<Seq<char>>, record: Record)
    requires
        describes(found, record),
    ensures
        found.no_duplicates(),
        forall|k: int|
            0 <= k < found.len() ==> is_set(record, #[trigger] found[k]),
{
    let all = description_lines(record);
    lemma_field_names();
    lemma_field_lines("channel"@, spelling(record.channel));
    lemma_field_lines("release"@, record.release);
    lemma_field_lines("version"@, record.version);
    lemma_field_lines("asset"@, record.asset);
    lemma_field_lines("sha256"@, record.sha256);
    lemma_distinct(record);
    assert(found.contains(all[0]) && found.contains(all[1]) && found.contains(all[2])
        && found.contains(all[3]) && found.contains(all[4]));
    let a = choose|k: int| 0 <= k < found.len() && found[k] == all[0];
    let b = choose|k: int| 0 <= k < found.len() && found[k] == all[1];
    let c = choose|k: int| 0 <= k < found.len() && found[k] == all[2];
    let d = choose|k: int| 0 <= k < found.len() && found[k] == all[3];
    let e = choose|k: int| 0 <= k < found.len() && found[k] == all[4];
    assert(sets(record, all[0], "channel"@, spelling(record.channel)));
    assert(sets(record, all[1], "release"@, record.release));
    assert(sets(record, all[2], "version"@, record.version));
    assert(sets(record, all[3], "asset"@, record.asset));
    assert(sets(record, all[4], "sha256"@, record.sha256));
    assert forall|k: int| 0 <= k < found.len() implies is_set(record, #[trigger] found[k]) by {
        assert(k == a || k == b || k == c || k == d || k == e);
    }
    assert forall|i: int, j: int|
        0 <= i < found.len() && 0 <= j < found.len() && i != j implies found[i] != found[j] by {
        assert(i == a || i == b || i == c || i == d || i == e);
        assert(j == a || j == b || j == c || j == d || j == e);
    }
}

proof fn lemma_distinct(record: Record)
    ensures
        description_lines(record).no_duplicates(),
{
    let all = description_lines(record);
    reveal_strlit("channel=");
    reveal_strlit("release=");
    reveal_strlit("version=");
    reveal_strlit("asset=");
    reveal_strlit("sha256=");
    assert(all[0][0] == 'c' && all[1][0] == 'r' && all[2][0] == 'v' && all[3][0] == 'a'
        && all[4][0] == 's');
}

/// A file describes a release exactly if its lines are the five that describe it, in any order, and
/// the release can be described.
pub proof fn description_is_read(text: Seq<char>, path: Seq<u8>, record: Record)
    ensures
        record_in(text, path) == Ok::<Record, Seq<char>>(record) <==> describable(record)
            && describes(lines(text), record),
{
    let found = lines(text);
    let all = description_lines(record);
    lemma_describable(record);
    lemma_field_names();
    channel_is_its_spelling(seq![], spelling(record.channel), record.channel);
    lemma_field_lines("channel"@, spelling(record.channel));
    lemma_field_lines("release"@, record.release);
    lemma_field_lines("version"@, record.version);
    lemma_field_lines("asset"@, record.asset);
    lemma_field_lines("sha256"@, record.sha256);
    if record_in(text, path) == Ok::<Record, Seq<char>>(record) {
        lemma_fields_come_from_lines(found, path);
        let known = fields(found, path)->Ok_0;
        channel_is_its_spelling(seq![], known["channel"@], record.channel);
        let names = set!["channel"@, "release"@, "version"@, "asset"@, "sha256"@];
        assert(known.dom() =~= names);
        assert(names.len() == 5);
        assert forall|k: int| 0 <= k < 5 implies found.contains(#[trigger] all[k]) by {
            assert(known.contains_key("channel"@) && known.contains_key("release"@)
                && known.contains_key("version"@) && known.contains_key("asset"@)
                && known.contains_key("sha256"@));
            assert(k == 0 || k == 1 || k == 2 || k == 3 || k == 4);
        }
    }
    if describable(record) && describes(found, record) {
        lemma_five(found, record);
        lemma_fields_set(record, found, path);
        let known = fields(found, path)->Ok_0;
        assert(found.contains(all[0]) && found.contains(all[1]) && found.contains(all[2])
            && found.contains(all[3]) && found.contains(all[4]));
        assert(sets(record, field_line("channel"@, spelling(record.channel)), "channel"@, spelling(
            record.channel,
        )));
        assert(sets(record, field_line("release"@, record.release), "release"@, record.release));
        assert(sets(record, field_line("version"@, record.version), "version"@, record.version));
        assert(sets(record, field_line("asset"@, record.asset), "asset"@, record.asset));
        assert(sets(record, field_line("sha256"@, record.sha256), "sha256"@, record.sha256));
    }
}

/// A directory is named after a channel and a release, and no other name stands for them.
pub proof fn release_directory_is_named(name: Seq<char>, channel: Channel, release: Seq<char>)
    ensures
        install_named(name) == Ok::<(Channel, Seq<char>), Seq<char>>((channel, release)) <==> name
            == spelling(channel) + "-"@ + release && numbers_release(release),
{
    release_id_is_a_number(release);
    install_named_only(name);
    if is_release_id(release) {
        install_name_read_back(channel, release);
    }
}

/// Whether a name is that of a directory for a release of a channel.
pub open spec fn names_one_of(name: Seq<char>, channel: Channel) -> bool {
    exists|release: Seq<char>|
        name == #[trigger] (spelling(channel) + "-"@ + release) && numbers_release(release)
}

proof fn lemma_names_one_of(name: Seq<char>, channel: Channel)
    ensures
        names_one_of(name, channel) <==> (install_named(name) matches Ok((found, _)) && found
            == channel),
{
    if let Ok((found, release)) = install_named(name) {
        release_directory_is_named(name, found, release);
        assert(name == spelling(found) + "-"@ + release);
    }
    if names_one_of(name, channel) {
        let release = choose|release: Seq<char>|
            name == #[trigger] (spelling(channel) + "-"@ + release) && numbers_release(release);
        release_directory_is_named(name, channel, release);
    }
}

/// The lines in which a change is noted down.
pub open spec fn note_lines(change: Change) -> Seq<Seq<char>> {
    let last = match change.previous {
        Some(previous) => previous,
        None => "none"@,
    };
    seq![spelling(change.channel), change.current, last]
}

/// A file notes a change down exactly if it has three lines: the channel, the release that is to be
/// current, and the other one that is to be previous, or `none`.
pub proof fn note_is_read(text: Seq<char>, path: Seq<u8>, change: Change)
    ensures
        change_in(text, path) == Ok::<Change, Seq<char>>(change) <==> {
            &&& lines(text) == note_lines(change)
            &&& names_one_of(change.current, change.channel)
            &&& change.previous matches Some(previous) ==> names_one_of(previous, change.channel)
                && previous != change.current
        },
{
    let found = lines(text);
    let last = match change.previous {
        Some(previous) => previous,
        None => "none"@,
    };
    let wanted = note_lines(change);
    assert(wanted[0] == spelling(change.channel) && wanted[1] == change.current && wanted[2]
        == last);
    if found.len() == 3 {
        assert(found == wanted <==> found[0] == wanted[0] && found[1] == wanted[1] && found[2]
            == wanted[2]) by {
            if found[0] == wanted[0] && found[1] == wanted[1] && found[2] == wanted[2] {
                assert(found =~= wanted);
            }
        }
        channel_is_its_spelling(seq![], found[0], Channel::Stable);
        channel_is_its_spelling(seq![], found[0], Channel::Nightly);
    }
    channel_is_its_spelling(seq![], spelling(change.channel), change.channel);
    lemma_names_one_of(change.current, change.channel);
    if let Some(previous) = change.previous {
        lemma_names_one_of(previous, change.channel);
        if names_one_of(previous, change.channel) {
            lemma_no_release_is_none(previous, change.channel);
        }
    }
}

proof fn lemma_no_release_is_none(name: Seq<char>, channel: Channel)
    requires
        names_one_of(name, channel),
    ensures
        name != "none"@,
{
    reveal_strlit("none");
    reveal_strlit("stable");
    reveal_strlit("nightly");
    reveal_strlit("-");
    let release = choose|release: Seq<char>|
        name == #[trigger] (spelling(channel) + "-"@ + release) && numbers_release(release);
    assert(name.len() > 4);
}

/// A change is noted down in those three lines.
pub proof fn note_has_three_lines(change: Change, path: Seq<u8>)
    requires
        names_one_of(change.current, change.channel),
        change.previous matches Some(previous) ==> names_one_of(previous, change.channel)
            && previous != change.current,
    ensures
        lines(change_text(change)) == note_lines(change),
{
    lemma_names_one_of(change.current, change.channel);
    if let Some(previous) = change.previous {
        lemma_names_one_of(previous, change.channel);
    }
    transaction_read_back(change, path);
    note_is_read(change_text(change), path, change);
}

/// A link of a channel selects the release in a directory exactly if it leads two directories up,
/// into `installs`, to the directory of a release of that channel.
pub proof fn link_leads_to_its_release(
    target: Seq<u8>,
    channel: Channel,
    link: Seq<u8>,
    name: Seq<char>,
)
    ensures
        channel_target(target, channel, link) == Ok::<Seq<char>, Seq<char>>(name) <==> {
            &&& pieces(target) == seq![
                Piece::Parent,
                Piece::Parent,
                Piece::Normal(encode_utf8("installs"@)),
                Piece::Normal(encode_utf8(name)),
            ]
            &&& names_one_of(name, channel)
        },
{
    let parts = pieces(target);
    lemma_names_one_of(name, channel);
    if parts.len() == 4 {
        assert(parts =~= seq![parts[0], parts[1], parts[2], parts[3]]);
        if let Piece::Normal(bytes) = parts[3] {
            lemma_decoded(bytes, name);
        }
    }
}

/// An executable is one exactly if it is a regular file that someone may execute.
pub proof fn executable_may_be_executed(w: World, path: Seq<u8>)
    ensures
        nvim_binary(w, path) is Ok <==> (w.sight(path) matches Sight::Present(Entry::File(mode))
            && mode & 0o111 != 0),
{
}

/// A directory is safe exactly if it is one itself, and neither its group nor others may write to
/// it.
pub proof fn safe_directory_is_not_shared(path: Seq<u8>, entry: Entry)
    ensures
        secure_directory(path, entry) is Ok <==> (entry matches Entry::Directory(mode) && mode
            & 0o022 == 0),
{
}

/// A release is found in a directory exactly if the directory lies in that of releases and is named
/// after the release, is a directory itself, holds an executable `bin/nvim`, and holds a file
/// `.nv-metadata` that describes the release; and if it is the right channel's.
pub proof fn release_is_found(
    w: World,
    paths: Places,
    path: Seq<u8>,
    expected: Option<Channel>,
    record: Record,
)
    ensures
        installation_at(w, paths, path, expected) == Ok::<Record, Seq<char>>(record) <==> {
            &&& lies_in(path, paths.installs)
            &&& last_name(path) == Some(
                encode_utf8(spelling(record.channel) + "-"@ + record.release),
            )
            &&& expected matches Some(channel) ==> channel == record.channel
            &&& w.sight(path) matches Sight::Present(Entry::Directory(_))
            &&& w.sight(within(path, "bin/nvim"@)) matches Sight::Present(Entry::File(mode)) && mode
                & 0o111 != 0
            &&& w.text(within(path, ".nv-metadata"@)) matches Ok(text) && describable(record)
                && describes(lines(text), record)
        },
{
    reveal(installation_at);
    let own = spelling(record.channel) + "-"@ + record.release;
    release_directory_is_named(own, record.channel, record.release);
    if let Ok(text) = w.text(within(path, ".nv-metadata"@)) {
        description_is_read(text, within(path, ".nv-metadata"@), record);
    }
    if let Some(bytes) = last_name(path) {
        lemma_decoded(bytes, own);
        if let Ok(name) = decoded(bytes) {
            lemma_decoded(bytes, name);
            if let Ok((channel, release)) = install_named(name) {
                release_directory_is_named(name, channel, release);
            }
        }
    }
}

/// A channel selects a release as current, or as previous, exactly as the link of that name says: it
/// selects none where there is no such link, and otherwise the release that is found in the
/// directory to which the link leads. A channel without a current release selects no previous one,
/// and the two are not the same.
pub proof fn channel_selects_by_its_links(
    w: World,
    paths: Places,
    channel: Channel,
    selected: Selected,
)
    ensures
        state_of(w, paths, channel) == Ok::<Selected, Seq<char>>(selected) <==> {
            &&& follows_link(w, paths, channel, "current"@, selected.current)
            &&& follows_link(w, paths, channel, "previous"@, selected.previous)
            &&& selected.previous matches Some(previous) ==> (selected.current matches Some(current)
                && current.name != previous.name)
        },
{
    reveal(state_of);
    lemma_follows_link(w, paths, channel, "current"@, selected.current);
    lemma_follows_link(w, paths, channel, "previous"@, selected.previous);
}

/// Whether what a channel selects is what a link says.
pub open spec fn follows_link(
    w: World,
    paths: Places,
    channel: Channel,
    which: Seq<char>,
    selected: Option<Installed>,
) -> bool {
    let link = paths.link_of(channel, which);
    match selected {
        None => w.sight(link) is Absent,
        Some(installed) => {
            &&& w.sight(link) == Sight::Present(Entry::Symlink)
            &&& w.target(link) matches Ok(target) && pieces(target) == seq![
                Piece::Parent,
                Piece::Parent,
                Piece::Normal(encode_utf8("installs"@)),
                Piece::Normal(encode_utf8(installed.name)),
            ]
            &&& names_one_of(installed.name, channel)
            &&& installed.path == joined(paths.installs, encode_utf8(installed.name))
            &&& installation_at(w, paths, installed.path, Some(channel)) == Ok::<Record, Seq<char>>(
                installed.record,
            )
        },
    }
}

proof fn lemma_follows_link(
    w: World,
    paths: Places,
    channel: Channel,
    which: Seq<char>,
    selected: Option<Installed>,
)
    ensures
        pointer_of(w, paths, channel, which) == Ok::<Option<Installed>, Seq<char>>(selected)
            <==> follows_link(w, paths, channel, which, selected),
{
    reveal(pointer_of);
    let link = paths.link_of(channel, which);
    if let Ok(target) = w.target(link) {
        if let Some(installed) = selected {
            link_leads_to_its_release(target, channel, link, installed.name);
        }
        if let Ok(name) = channel_target(target, channel, link) {
            link_leads_to_its_release(target, channel, link, name);
        }
    }
}

} // verus!
