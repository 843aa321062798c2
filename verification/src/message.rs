//! Commands understood by the offer-book actor and their results.

use vstd::prelude::*;
use crate::crypto::SequencedMessageHash;
use crate::offer_book::{OfferSequence, OpenOffer};

verus! {

/// Outcome of a storage or projection command: committed, or silently
/// dropped by policy.
#[derive(Clone, Copy, Debug, PartialEq, Eq, Structural)]
pub enum CommandResult {
    Accepted,
    Ignored,
}

/// Publish or update an open offer.
pub struct AddOffer(pub OpenOffer);

/// Bump the sequence stamp of the offer stored under a key.
pub struct RefreshOffer {
    pub bisq_hash: SequencedMessageHash,
    pub sequence: OfferSequence,
}

/// Ask for a snapshot of the open offers.
pub struct GetOpenOffers;

} // verus!
