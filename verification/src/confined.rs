//! The places that nv may change, and lists of actions that change no others.

use vstd::prelude::*;

use crate::host::{reaches, Deed};
use crate::paths::places_below;

verus! {

/// Whether a place is in the state directory or in that of the executable.
pub open spec fn is_own(home: Seq<u8>, place: Seq<u8>) -> bool {
    let paths = places_below(home);
    reaches(paths.state, place) || reaches(paths.local_bin, place)
}

/// Whether an action changes nothing but what is nv's own; directories are removed with all that is
/// in them only among the releases and in the directory for staging.
pub open spec fn is_tame(deed: Deed, home: Seq<u8>) -> bool {
    match deed {
        Deed::CreateNew(place) | Deed::Write(place, _) | Deed::MakeDirectory(place) | Deed::Link(
            _,
            place,
        ) | Deed::RemoveFile(place) | Deed::MakePrivateDirectories(place) => is_own(home, place),
        Deed::Rename(from, to) => is_own(home, from) && is_own(home, to),
        Deed::RemoveTree(place) => reaches(places_below(home).installs, place) || reaches(
            places_below(home).staging,
            place,
        ),
        _ => true,
    }
}

/// Whether all actions change nothing but what is nv's own.
#[verifier::opaque]
pub open spec fn tame(deeds: Seq<Deed>, home: Seq<u8>) -> bool {
    forall|k: int| 0 <= k < deeds.len() ==> is_tame(#[trigger] deeds[k], home)
}

pub broadcast proof fn lemma_tame_joined(one: Seq<Deed>, other: Seq<Deed>, home: Seq<u8>)
    ensures
        #[trigger] tame(one + other, home) == (tame(one, home) && tame(other, home)),
{
    reveal(tame);
    let all = one + other;
    if tame(one, home) && tame(other, home) {
        assert forall|k: int| 0 <= k < all.len() implies is_tame(#[trigger] all[k], home) by {
            if k < one.len() {
                assert(all[k] == one[k]);
            } else {
                assert(all[k] == other[k - one.len()]);
            }
        }
    }
    if tame(all, home) {
        assert forall|k: int| 0 <= k < one.len() implies is_tame(#[trigger] one[k], home) by {
            assert(all[k] == one[k]);
        }
        assert forall|k: int| 0 <= k < other.len() implies is_tame(#[trigger] other[k], home) by {
            assert(all[k + one.len()] == other[k]);
        }
    }
}

pub broadcast proof fn lemma_tame_one(deed: Deed, home: Seq<u8>)
    ensures
        #[trigger] tame(seq![deed], home) == is_tame(deed, home),
{
    reveal(tame);
    assert(seq![deed][0] == deed);
}

pub broadcast proof fn lemma_tame_none(home: Seq<u8>)
    ensures
        #[trigger] tame(seq![], home),
{
    reveal(tame);
}

pub broadcast group group_tame {
    lemma_tame_joined,
    lemma_tame_one,
    lemma_tame_none,
}

} // verus!
