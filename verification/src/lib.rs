//! Protected storage and offer-book core of a Bisq peer node.
//!
//! The library models the authenticated, sequence-ordered key-value store
//! that a Bisq node replicates over gossip, together with the open-offer
//! projection derived from it and the canonical wire encoding that content
//! hashes and signatures are computed over.

pub mod address;
pub mod codec;
pub mod crypto;
pub mod decode;
pub mod envelope;
pub mod keymap;
pub mod laws;
pub mod message;
pub mod offer_book;
pub mod payload;
pub mod store;
pub mod wire;

use vstd::prelude::*;

verus! {

/// Health-check answer of the query interface.
pub fn ping() -> (r: &'static str)
    ensures
        r@ == "pong"@,
{
    "pong"
}

} // verus!
