//! What a rollback promises on a calm machine.

use vstd::prelude::*;

use crate::calm::{
    calm, committable, committable_change_is_made, lemma_calm_attempt, lemma_calm_state,
    lemma_release_read, selected_by, tidy,
};
use crate::channel::Channel;
use crate::commands::{channel_rolled_back, swap};
use crate::disk::{lemma_pointer_selects, lemma_stored};
use crate::host::{Deed, World};
use crate::installation::{state_of, Installed, Selected};
use crate::laws::lemma_state_selects;
use crate::layout::synced;
use crate::path::absolute;
use crate::paths::{places_below, Places};
use crate::pointers::change_committed;

verus! {

/// The state of a channel that selects two releases.
pub open spec fn selecting(current: Installed, previous: Installed) -> Selected {
    Selected { current: Some(current), previous: Some(previous) }
}

proof fn lemma_swap_committable(
    w: World,
    paths: Places,
    channel: Channel,
    current: Installed,
    previous: Installed,
)
    requires
        tidy(w.nodes, paths, channel),
        state_of(w, paths, channel) == Ok::<Selected, Seq<char>>(selecting(current, previous)),
    ensures
        committable(w, paths, swap(channel, current, previous)),
        selected_by(w, paths, swap(channel, current, previous)) == selecting(previous, current),
{
    reveal(state_of);
    lemma_state_selects(w, paths, channel);
    lemma_pointer_selects(w, paths, channel, "current"@);
    lemma_pointer_selects(w, paths, channel, "previous"@);
}

/// On a calm machine whose disk holds nothing of an unfinished change, a rollback of a channel with
/// two releases succeeds and swaps them, and leaves the disk such that it can be repeated.
pub proof fn rollback_succeeds(
    w: World,
    home: Seq<u8>,
    channel: Channel,
    current: Installed,
    previous: Installed,
)
    requires
        absolute(home),
        calm(w.outside),
        tidy(w.nodes, places_below(home), channel),
        state_of(w, places_below(home), channel) == Ok::<Selected, Seq<char>>(
            selecting(current, previous),
        ),
    ensures
        ({
            let paths = places_below(home);
            let (done, after) = channel_rolled_back(w, paths, channel);
            &&& done is Ok
            &&& calm(after.outside)
            &&& tidy(after.nodes, paths, channel)
            &&& state_of(after, paths, channel) == Ok::<Selected, Seq<char>>(
                selecting(previous, current),
            )
        }),
{
    let paths = places_below(home);
    let change = swap(channel, current, previous);
    lemma_swap_committable(w, paths, channel, current, previous);
    committable_change_is_made(w, home, change);
    let w1 = change_committed(w, paths, change).1;
    let directory = paths.directory_of(channel);
    lemma_calm_attempt(w1, Deed::SyncDirectory(directory));
    lemma_stored(w1, Deed::SyncDirectory(directory));
    let w2 = synced(w1, directory).1;
    let line = Deed::Print(
        "rolled back "@ + channel.name() + " to "@ + previous.record.version + " (release "@
            + previous.record.release + ")"@,
    );
    lemma_calm_attempt(w2, line);
    lemma_stored(w2, line);
    let after = channel_rolled_back(w, paths, channel).1;
    lemma_release_read(w1, after, paths, channel, change.current);
    lemma_release_read(w1, after, paths, channel, change.previous->0);
    lemma_calm_state(w1, paths, change);
    lemma_calm_state(after, paths, change);
}

/// On such a machine a second rollback succeeds too and swaps the releases forward again.
pub proof fn second_rollback_succeeds(
    w: World,
    home: Seq<u8>,
    channel: Channel,
    current: Installed,
    previous: Installed,
)
    requires
        absolute(home),
        calm(w.outside),
        tidy(w.nodes, places_below(home), channel),
        state_of(w, places_below(home), channel) == Ok::<Selected, Seq<char>>(
            selecting(current, previous),
        ),
    ensures
        ({
            let paths = places_below(home);
            let once = channel_rolled_back(w, paths, channel).1;
            let (done, twice) = channel_rolled_back(once, paths, channel);
            done is Ok && state_of(twice, paths, channel) == state_of(w, paths, channel)
        }),
{
    let once = channel_rolled_back(w, places_below(home), channel).1;
    rollback_succeeds(w, home, channel, current, previous);
    rollback_succeeds(once, home, channel, previous, current);
}

} // verus!
