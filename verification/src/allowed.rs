//! The programs that nv may run, and lists of actions among which there are no others.

use vstd::prelude::*;
use vstd::utf8::*;

use crate::activation::destination;
use crate::channel::Channel;
use crate::host::{Deed, Invocation};
use crate::laws_offer::{
    archive_request, description_address, description_request, digest_request, fit,
    selection_request, unpacking_request,
};
use crate::laws_refused::presence_request;
use crate::paths::within;
use crate::programs::Offer;
use crate::text::decimal;

verus! {

/// The programs that nv may run: those that it looks for, the downloads of a description or of one
/// of Neovim's archives, what it does with these, and a Neovim that it has unpacked.
pub open spec fn allowed(invocation: Invocation) -> bool {
    ||| exists|program: Seq<char>|
        (program == "curl"@ || program == "jq"@ || program == "sha256sum"@ || program == "tar"@)
            && invocation == #[trigger] presence_request(program)
    ||| exists|version: Seq<char>, channel: Channel, response: Seq<u8>|
        invocation == #[trigger] channel_request(version, channel, response)
    ||| exists|response: Seq<u8>| invocation == #[trigger] selection_request(response)
    ||| exists|version: Seq<char>, terminal: bool, offer: Offer, archive: Seq<u8>|
        invocation == #[trigger] offer_request(version, terminal, offer, archive) && fit(offer)
    ||| exists|archive: Seq<u8>| invocation == #[trigger] digest_request(archive)
    ||| exists|archive: Seq<u8>, destination: Seq<u8>|
        invocation == #[trigger] unpacking_request(archive, destination)
    ||| exists|installation: Seq<u8>| invocation == #[trigger] own_version_request(installation)
}

/// How the description of a channel is asked for.
pub open spec fn channel_request(version: Seq<char>, channel: Channel, response: Seq<u8>) -> Invocation {
    description_request(version, description_address(channel), response)
}

/// How the archive of an offer is asked for.
pub open spec fn offer_request(
    version: Seq<char>,
    terminal: bool,
    offer: Offer,
    archive: Seq<u8>,
) -> Invocation {
    archive_request(version, terminal, offer.url, decimal(offer.size as nat), archive)
}

/// How an unpacked Neovim is asked for its version.
pub open spec fn own_version_request(installation: Seq<u8>) -> Invocation {
    Invocation {
        program: within(installation, "bin/nvim"@),
        arguments: seq![encode_utf8("--version"@)],
        report: false,
    }
}

/// Whether an action is no program, or one that may be run if programs may be run at all.
pub open spec fn in_order(deed: Deed, programs: bool) -> bool {
    deed matches Deed::Run(invocation) ==> programs && allowed(invocation)
}

/// Whether all actions are in order.
#[verifier::opaque]
pub open spec fn proper(deeds: Seq<Deed>, programs: bool) -> bool {
    forall|k: int| 0 <= k < deeds.len() ==> in_order(#[trigger] deeds[k], programs)
}

pub broadcast proof fn lemma_joined(one: Seq<Deed>, other: Seq<Deed>, programs: bool)
    ensures
        #[trigger] proper(one + other, programs) == (proper(one, programs) && proper(
            other,
            programs,
        )),
{
    reveal(proper);
    let all = one + other;
    if proper(one, programs) && proper(other, programs) {
        assert forall|k: int| 0 <= k < all.len() implies in_order(#[trigger] all[k], programs) by {
            if k < one.len() {
                assert(all[k] == one[k]);
            } else {
                assert(all[k] == other[k - one.len()]);
            }
        }
    }
    if proper(all, programs) {
        assert forall|k: int| 0 <= k < one.len() implies in_order(#[trigger] one[k], programs) by {
            assert(all[k] == one[k]);
        }
        assert forall|k: int| 0 <= k < other.len() implies in_order(
            #[trigger] other[k],
            programs,
        ) by {
            assert(all[k + one.len()] == other[k]);
        }
    }
}

pub broadcast proof fn lemma_one(deed: Deed, programs: bool)
    ensures
        #[trigger] proper(seq![deed], programs) == in_order(deed, programs),
{
    reveal(proper);
    assert(seq![deed][0] == deed);
}

pub broadcast proof fn lemma_none(programs: bool)
    ensures
        #[trigger] proper(seq![], programs),
{
    reveal(proper);
}

pub broadcast group group_proper {
    lemma_joined,
    lemma_one,
    lemma_none,
}

} // verus!
