//! What the status tells.

use vstd::prelude::*;
use vstd::utf8::*;

use crate::activation::{active_channel, active_target};
use crate::channel::Channel;
use crate::cli::Cli;
use crate::commands::{
    empty_status, lines_printed, selections_printed, status_lines, status_printed,
};
use crate::disk::{at, lemma_pointer_selects, orderly, selection};
use crate::frames::lock_taken_keeps;
use crate::host::{Deed, Line, Node, World};
use crate::installation::{installation_at, pointer_of, state_of, states_of, Installed};
use crate::laws_command::{lemma_lock_apart, lemma_nothing_recovered, nothing_pending};
use crate::laws_files::{
    description_lines, link_leads_to_its_release, names_one_of, numbers_release,
    release_directory_is_named, release_is_found,
};
use crate::laws_first::words;
use crate::laws_words::{command_is_its_spelling, lemma_decoded, spelling};
use crate::layout::{lock_released, lock_taken, printed};
use crate::locate::{ascii, lemma_ascii, lemma_name_piece, lemma_pieces_join, lemma_release_name};
use crate::metadata::Record;
use crate::path::{absolute, joined, last_name, pieces, Piece};
use crate::paths::{places_below, within, Places};
use crate::pointers::transaction_draft;
use crate::run::{program_run, Host};
use crate::text::{decimal, lines};

verus! {

/// A line that was printed is on the terminal, and nothing else has changed; one that could not be
/// printed is not.
pub proof fn printed_line_is_told(w: World, line: Seq<char>)
    ensures
        ({
            let (done, after) = printed(w, line);
            &&& done is Ok ==> after.output == w.output.push(Line::Told(line)) && after.nodes
                == w.nodes && after.outside == w.outside
            &&& done is Err ==> after.output == w.output
        }),
{
    reveal(World::attempt);
}

/// No action but printing puts anything on the terminal.
pub proof fn lemma_silent(w: World, deed: Deed)
    requires
        !(deed is Print),
        !(deed is Warn),
    ensures
        w.attempt(deed).1.output == w.output,
{
    reveal(World::attempt);
}

/// Lines as they are told one after the other.
pub open spec fn told_lines(lines: Seq<Seq<char>>) -> Seq<Line> {
    Seq::new(lines.len(), |k: int| Line::Told(lines[k]))
}

/// Lines that were printed are on the terminal, in their order.
proof fn lemma_lines_told(w: World, lines: Seq<Seq<char>>)
    ensures
        ({
            let (done, after) = lines_printed(w, lines);
            done is Ok ==> after.output == w.output + told_lines(lines) && after.nodes == w.nodes
                && after.outside == w.outside
        }),
    decreases lines.len(),
{
    if lines.len() > 0 {
        let w1 = printed(w, lines[0]).1;
        let rest = lines.skip(1);
        printed_line_is_told(w, lines[0]);
        lemma_lines_told(w1, rest);
        if lines_printed(w, lines).0 is Ok {
            assert(w.output.push(Line::Told(lines[0])) + told_lines(rest) =~= w.output + told_lines(
                lines,
            ));
        }
    } else {
        assert(w.output + told_lines(lines) =~= w.output);
    }
}

/// Whether a file is on disk, or at the end of a link on disk, and holds a text.
pub open spec fn holds(w: World, path: Seq<u8>, text: Seq<char>) -> bool {
    w.followed(path) matches Some(Node::File { contents, .. }) && contents == encode_utf8(text)
}

/// Whether the description in a directory names a release and a version.
pub open spec fn is_described(w: World, path: Seq<u8>, release: Seq<char>, version: Seq<char>) -> bool {
    exists|text: Seq<char>| #[trigger]
        holds(w, within(path, ".nv-metadata"@), text) && lines(text).contains(
            "release="@ + release,
        ) && lines(text).contains("version="@ + version)
}

/// Whether a line tells of the release in a directory, and of its version.
pub open spec fn tells_of(
    channel: Channel,
    which: Seq<char>,
    line: Seq<char>,
    name: Seq<char>,
    release: Seq<char>,
    version: Seq<char>,
) -> bool {
    &&& name == spelling(channel) + "-"@ + release
    &&& line == spelling(channel) + " "@ + which + ": release="@ + release + " version="@ + version
}

/// Whether a line of the status is right: it tells of the release that the link of that name
/// selects, with the version in its description, or that there is none if there is no such link.
pub open spec fn is_right(
    w: World,
    paths: Places,
    channel: Channel,
    which: Seq<char>,
    line: Seq<char>,
) -> bool {
    match selection(w.nodes, paths, channel, which) {
        None => {
            &&& at(w.nodes, paths.link_of(channel, which)) is None
            &&& line == spelling(channel) + " "@ + which + ": none"@
        },
        Some(name) => is_told(w, paths, channel, which, line, name),
    }
}

/// Whether a line tells of the release in the directory `name`, with what is described there.
pub open spec fn is_told(
    w: World,
    paths: Places,
    channel: Channel,
    which: Seq<char>,
    line: Seq<char>,
    name: Seq<char>,
) -> bool {
    exists|release: Seq<char>, version: Seq<char>| #[trigger]
        tells_of(channel, which, line, name, release, version) && is_described(
            w,
            joined(paths.installs, encode_utf8(name)),
            release,
            version,
        )
}

proof fn lemma_release_right(
    w: World,
    paths: Places,
    channel: Channel,
    which: Seq<char>,
    line: Seq<char>,
    name: Seq<char>,
    release: Seq<char>,
    version: Seq<char>,
)
    requires
        selection(w.nodes, paths, channel, which) == Some(name),
        tells_of(channel, which, line, name, release, version),
        is_described(w, joined(paths.installs, encode_utf8(name)), release, version),
    ensures
        is_right(w, paths, channel, which, line),
{
}

/// What a link of a channel is read to select is on disk, and described there.
pub proof fn lemma_pointer_described(
    w: World,
    paths: Places,
    channel: Channel,
    which: Seq<char>,
    installed: Installed,
)
    requires
        pointer_of(w, paths, channel, which) == Ok::<Option<Installed>, Seq<char>>(
            Some(installed),
        ),
    ensures
        ({
            let record = installed.record;
            let name = spelling(channel) + "-"@ + record.release;
            &&& installed.name == name
            &&& selection(w.nodes, paths, channel, which) == Some(name)
            &&& is_described(
                w,
                joined(paths.installs, encode_utf8(name)),
                record.release,
                record.version,
            )
        }),
{
    let record = installed.record;
    let file = within(installed.path, ".nv-metadata"@);
    lemma_pointer_selects(w, paths, channel, which);
    release_is_found(w, paths, installed.path, Some(channel), record);
    let text = w.text(file)->Ok_0;
    assert(holds(w, file, text)) by {
        reveal(World::text);
        let contents = w.followed(file)->0->contents;
        lemma_decoded(contents, text);
    }
    link_leads_to_its_release(
        w.nodes[paths.link_of(channel, which)]->target,
        channel,
        paths.link_of(channel, which),
        installed.name,
    );
    lemma_name_and_record(w, paths, channel, installed);
    let all = description_lines(record);
    assert(all[1] == "release="@ + record.release);
    assert(all[2] == "version="@ + record.version);
    assert(lines(text).contains(all[1]) && lines(text).contains(all[2]));
    assert(is_described(w, installed.path, record.release, record.version));
}

proof fn lemma_line_right(
    w: World,
    v: World,
    paths: Places,
    channel: Channel,
    which: Seq<char>,
    selected: Option<Installed>,
    line: Seq<char>,
)
    requires
        v.nodes == w.nodes,
        v.outside == w.outside,
        pointer_of(v, paths, channel, which) == Ok::<Option<Installed>, Seq<char>>(selected),
        line == match selected {
            Some(installed) => spelling(channel) + " "@ + which + ": release="@
                + installed.record.release + " version="@ + installed.record.version,
            None => spelling(channel) + " "@ + which + ": none"@,
        },
    ensures
        is_right(w, paths, channel, which, line),
{
    lemma_pointer_selects(v, paths, channel, which);
    if let Some(installed) = selected {
        let record = installed.record;
        let path = joined(paths.installs, encode_utf8(installed.name));
        lemma_pointer_described(v, paths, channel, which, installed);
        assert(is_described(w, path, record.release, record.version)) by {
            let text = choose|text: Seq<char>| #[trigger]
                holds(v, within(path, ".nv-metadata"@), text) && lines(text).contains(
                    "release="@ + record.release,
                ) && lines(text).contains("version="@ + record.version);
            assert(holds(w, within(path, ".nv-metadata"@), text));
        }
        lemma_release_right(
            w,
            paths,
            channel,
            which,
            line,
            installed.name,
            record.release,
            record.version,
        );
    } else {
        assert(selection(w.nodes, paths, channel, which) is None);
    }
}

/// The directory of a release that was found is named after what its description says.
proof fn lemma_name_and_record(v: World, paths: Places, channel: Channel, installed: Installed)
    requires
        names_one_of(installed.name, channel),
        installed.path == within(paths.installs, installed.name),
        installation_at(v, paths, installed.path, Some(channel)) == Ok::<
            Record,
            Seq<char>,
        >(installed.record),
    ensures
        installed.name == spelling(channel) + "-"@ + installed.record.release,
{
    let name = installed.name;
    let bytes = encode_utf8(name);
    let own = spelling(channel) + "-"@ + installed.record.release;
    release_is_found(v, paths, installed.path, Some(channel), installed.record);
    lemma_last_of(paths.installs, name, channel);
    lemma_decoded(encode_utf8(own), name);
    lemma_decoded(encode_utf8(own), own);
}

/// The last component of the path of a release is its name.
proof fn lemma_last_of(base: Seq<u8>, name: Seq<char>, channel: Channel)
    requires
        names_one_of(name, channel),
    ensures
        last_name(joined(base, encode_utf8(name))) == Some(encode_utf8(name)),
{
    let release = choose|release: Seq<char>|
        name == #[trigger] (spelling(channel) + "-"@ + release)
            && numbers_release(release);
    release_directory_is_named(name, channel, release);
    lemma_release_name(name, channel);
    lemma_ascii(name);
    lemma_name_piece(name);
    let bytes = ascii(name);
    let path = joined(base, bytes);
    assert(bytes[0] == name[0] as u8);
    assert(name[0] != '/');
    if base.len() == 0 {
        assert(path =~= bytes);
        reveal_strlit("stable");
        reveal_strlit("nightly");
        assert(name[0] == spelling(channel)[0]);
    } else {
        let left = if base.last() == 47 {
            base.drop_last()
        } else {
            base
        };
        assert(path =~= left.push(47u8) + bytes);
        lemma_pieces_join(left, bytes);
    }
    assert(pieces(path).last() == Piece::Normal(bytes));
}

/// What the first line of the status says: which channel the link of the channel in use leads to,
/// or that there is no such link.
pub open spec fn is_active(w: World, paths: Places, line: Seq<char>) -> bool {
    match at(w.nodes, paths.active) {
        None => line == "active: none"@,
        Some(Node::Link { target }) => exists|channel: Channel|
            pieces(target) == pieces(active_target(channel)) && line == "active: "@ + #[trigger]
                spelling(channel),
        Some(_) => false,
    }
}

proof fn lemma_active_right(w: World, paths: Places)
    ensures
        active_channel(w, paths) matches Ok(active) ==> is_active(
            w,
            paths,
            "active: "@ + match active {
                Some(channel) => spelling(channel),
                None => "none"@,
            },
        ),
{
    reveal(World::sight);
    reveal(World::target);
    reveal_strlit("active: ");
    reveal_strlit("none");
    reveal_strlit("active: none");
    assert("active: "@ + "none"@ =~= "active: none"@);
}

/// Whether the lines of the status are right: the channel in use first, then for each channel, the
/// stable one first, its current and its previous release.
pub open spec fn status_is_right(w: World, paths: Places, lines: Seq<Seq<char>>) -> bool {
    &&& lines.len() == 5
    &&& is_active(w, paths, lines[0])
    &&& is_right(w, paths, Channel::Stable, "current"@, lines[1])
    &&& is_right(w, paths, Channel::Stable, "previous"@, lines[2])
    &&& is_right(w, paths, Channel::Nightly, "current"@, lines[3])
    &&& is_right(w, paths, Channel::Nightly, "previous"@, lines[4])
}

/// Whether one world comes from another by printing lines alone.
pub open spec fn only_told(before: World, after: World, lines: Seq<Seq<char>>) -> bool {
    after.output == before.output + told_lines(lines) && after.nodes == before.nodes
        && after.outside == before.outside
}

proof fn lemma_selections_right(w: World, v: World, paths: Places)
    requires
        v.nodes == w.nodes,
        v.outside == w.outside,
        selections_printed(v, paths).0 is Ok,
    ensures
        exists|lines: Seq<Seq<char>>|
            {
                &&& #[trigger] only_told(v, selections_printed(v, paths).1, lines)
                &&& lines.len() == 4
                &&& is_right(w, paths, Channel::Stable, "current"@, lines[0])
                &&& is_right(w, paths, Channel::Stable, "previous"@, lines[1])
                &&& is_right(w, paths, Channel::Nightly, "current"@, lines[2])
                &&& is_right(w, paths, Channel::Nightly, "previous"@, lines[3])
            },
{
    let states = states_of(v, paths)->Ok_0;
    let stable = state_of(v, paths, Channel::Stable)->Ok_0;
    let nightly = state_of(v, paths, Channel::Nightly)->Ok_0;
    let lines = status_lines(states[0].0, states[0].1) + status_lines(states[1].0, states[1].1);
    reveal(state_of);
    lemma_lines_told(v, lines);
    lemma_line_right(w, v, paths, Channel::Stable, "current"@, stable.current, lines[0]);
    lemma_line_right(w, v, paths, Channel::Stable, "previous"@, stable.previous, lines[1]);
    lemma_line_right(w, v, paths, Channel::Nightly, "current"@, nightly.current, lines[2]);
    lemma_line_right(w, v, paths, Channel::Nightly, "previous"@, nightly.previous, lines[3]);
    assert(only_told(v, selections_printed(v, paths).1, lines));
}

/// The status of a state that can be read tells the channel in use and what the links of each
/// channel select, and changes nothing.
pub proof fn status_tells_what_links_select(w: World, paths: Places)
    requires
        status_printed(w, paths).0 is Ok,
    ensures
        exists|lines: Seq<Seq<char>>|
            #[trigger] only_told(w, status_printed(w, paths).1, lines) && status_is_right(
                w,
                paths,
                lines,
            ),
{
    let active = active_channel(w, paths)->Ok_0;
    let first = "active: "@ + match active {
        Some(channel) => spelling(channel),
        None => "none"@,
    };
    lemma_active_right(w, paths);
    printed_line_is_told(w, first);
    let v = printed(w, first).1;
    lemma_selections_right(w, v, paths);
    let rest = choose|lines: Seq<Seq<char>>|
        {
            &&& #[trigger] only_told(v, selections_printed(v, paths).1, lines)
            &&& lines.len() == 4
            &&& is_right(w, paths, Channel::Stable, "current"@, lines[0])
            &&& is_right(w, paths, Channel::Stable, "previous"@, lines[1])
            &&& is_right(w, paths, Channel::Nightly, "current"@, lines[2])
            &&& is_right(w, paths, Channel::Nightly, "previous"@, lines[3])
        };
    let lines = seq![first] + rest;
    assert(w.output.push(Line::Told(first)) + told_lines(rest) =~= w.output + told_lines(lines));
    assert(only_told(w, status_printed(w, paths).1, lines));
    assert(status_is_right(w, paths, lines));
}

/// No step of taking the lock or of giving it back puts anything on the terminal.
pub proof fn lemma_lock_is_silent(w: World, paths: Places, process: u32)
    ensures
        lock_taken(w, paths, process).1.output == w.output,
        lock_released(w, paths).1.output == w.output,
{
    let lock = paths.lock;
    let write = Deed::Write(lock, "pid="@ + decimal(process as nat) + "\n"@);
    let remove = Deed::RemoveFile(lock);
    let w1 = w.create(lock).1;
    assert(w1.output == w.output) by {
        reveal(World::create);
    }
    lemma_silent(w1, write);
    let w2 = w1.attempt(write).1;
    lemma_silent(w2, remove);
    lemma_silent(w2, Deed::SyncFile(lock));
    let w3 = w2.attempt(Deed::SyncFile(lock)).1;
    lemma_silent(w3, remove);
    lemma_silent(w, remove);
    lemma_silent(w.attempt(remove).1, remove);
}

/// What the status tells before anything was installed.
pub open spec fn bare_status() -> Seq<Seq<char>> {
    seq![
        "active: none"@,
        "stable current: none"@,
        "stable previous: none"@,
        "nightly current: none"@,
        "nightly previous: none"@,
    ]
}

proof fn lemma_bare_status()
    ensures
        empty_status() == bare_status(),
{
    reveal_strlit("stable");
    reveal_strlit("nightly");
    reveal_strlit(" ");
    reveal_strlit("current");
    reveal_strlit("previous");
    reveal_strlit(": none");
    reveal_strlit("stable current: none");
    reveal_strlit("stable previous: none");
    reveal_strlit("nightly current: none");
    reveal_strlit("nightly previous: none");
    assert("stable"@ + " "@ + "current"@ + ": none"@ =~= "stable current: none"@);
    assert("stable"@ + " "@ + "previous"@ + ": none"@ =~= "stable previous: none"@);
    assert("nightly"@ + " "@ + "current"@ + ": none"@ =~= "nightly current: none"@);
    assert("nightly"@ + " "@ + "previous"@ + ": none"@ =~= "nightly previous: none"@);
    assert(empty_status() =~= bare_status());
}

/// `nv status` tells, where there is no state, that nothing is installed, and otherwise the channel
/// in use and what the links of each channel select. It tells nothing else.
pub proof fn status_command_tells(w: World, host: Host, home: Seq<u8>)
    requires
        host.os@ == "linux"@,
        host.arch@ == "x86_64"@,
        host.home.deep_view() == Some(home),
        absolute(home),
        orderly(w.outside, places_below(home)),
        nothing_pending(w.nodes, places_below(home)),
        program_run(w, host, seq![encode_utf8("status"@)]).0 is Ok,
    ensures
        ({
            let paths = places_below(home);
            let held = lock_taken(w, paths, host.setting.process).1;
            let after = program_run(w, host, seq![encode_utf8("status"@)]).1;
            if w.sight(paths.state) is Absent {
                only_told(w, after, bare_status())
            } else {
                &&& forall|path: Seq<u8>|
                    path != paths.lock ==> #[trigger] at(held.nodes, path) == at(w.nodes, path)
                &&& exists|lines: Seq<Seq<char>>|
                    after.output == w.output + #[trigger] told_lines(lines) && status_is_right(
                        held,
                        paths,
                        lines,
                    )
            }
        }),
{
    let paths = places_below(home);
    let words = seq![encode_utf8("status"@)];
    let process = host.setting.process;
    command_is_its_spelling(words, Cli::Status);
    lemma_bare_status();
    lemma_lines_told(w, empty_status());
    if !(w.sight(paths.state) is Absent) {
        let held = lock_taken(w, paths, process).1;
        lemma_lock_apart(home);
        lock_taken_keeps(w, paths, process, paths.transaction);
        lock_taken_keeps(w, paths, process, transaction_draft(paths));
        lemma_nothing_recovered(held, paths);
        lemma_lock_is_silent(w, paths, process);
        status_tells_what_links_select(held, paths);
        let done = status_printed(held, paths).1;
        lemma_lock_is_silent(done, paths, process);
        let lines = choose|lines: Seq<Seq<char>>|
            #[trigger] only_told(held, done, lines) && status_is_right(held, paths, lines);
        assert(program_run(w, host, words).1.output == w.output + told_lines(lines));
        assert forall|path: Seq<u8>| path != paths.lock implies #[trigger] at(held.nodes, path)
            == at(w.nodes, path) by {
            lock_taken_keeps(w, paths, process, path);
        }
    }
}

} // verus!
