//! The open-offer book: the projection of the protected storage map onto
//! its offer-bearing entries, keyed by the entry's content hash.

use vstd::prelude::*;
use crate::crypto::SequencedMessageHash;
use crate::keymap::{
    distinct_keys, find_index, lemma_pairs_map_at, lemma_pairs_map_domain,
    lemma_pairs_map_remove, lemma_pairs_map_update, pairs_map,
};
use crate::message::{AddOffer, CommandResult, GetOpenOffers, RefreshOffer};
use crate::payload::{Direction, NodeAddress, OfferPayload};

verus! {

/// The version stamp of an open offer: the sequence number of its backing
/// protected entry.
#[derive(Clone, Copy, Debug, PartialEq, Eq, Structural)]
pub struct OfferSequence(pub u32);

/// A query-friendly projection of an offer-bearing protected entry.
#[derive(Clone, Debug, PartialEq, Eq)]
pub struct OpenOffer {
    pub bisq_hash: SequencedMessageHash,
    pub id: Vec<u8>,
    pub direction: Direction,
    pub price: u64,
    pub amount: u64,
    pub min_amount: u64,
    pub payment_method: Vec<u8>,
    pub maker_node_address: Option<NodeAddress>,
    pub currency_code: Vec<u8>,
    pub created_at: u64,
    pub sequence: OfferSequence,
}

/// Copies a byte string.
pub fn copy_bytes(v: &[u8]) -> (r: Vec<u8>)
    ensures
        r@ == v@,
{
    let mut out: Vec<u8> = Vec::new();
    out.extend_from_slice(v);
    out
}

impl SequencedMessageHash {
    /// A fresh value holding the same digest bytes.
    pub fn duplicate(&self) -> (r: SequencedMessageHash)
        requires
            self.wf(),
        ensures
            r.spec_bytes() == self.spec_bytes(),
            r.wf(),
    {
        SequencedMessageHash::new(copy_bytes(self.as_bytes()))
    }
}

/// Field-wise agreement of an open offer with the offer payload it
/// projects, the storage key of its backing entry, and that entry's
/// current sequence number.
pub open spec fn open_offer_matches(o: OpenOffer, k: Seq<u8>, p: OfferPayload, seq: u32) -> bool {
    &&& o.bisq_hash.spec_bytes() == k
    &&& o.id@ == p.id@
    &&& o.direction == p.direction
    &&& o.price == p.price
    &&& o.amount == p.amount
    &&& o.min_amount == p.min_amount
    &&& o.payment_method@ == p.payment_method_id@
    &&& (match (o.maker_node_address, p.owner_node_address) {
        (None, None) => true,
        (Some(a), Some(b)) => a.host_name@ == b.host_name@ && a.port == b.port,
        _ => false,
    })
    &&& o.currency_code@ == p.counter_currency_code@
    &&& o.created_at == p.date
    &&& o.sequence.0 == seq
}

/// View-level equality of two open offers.
pub open spec fn open_offer_eq(a: OpenOffer, b: OpenOffer) -> bool {
    &&& a.bisq_hash.spec_bytes() == b.bisq_hash.spec_bytes()
    &&& a.id@ == b.id@
    &&& a.direction == b.direction
    &&& a.price == b.price
    &&& a.amount == b.amount
    &&& a.min_amount == b.min_amount
    &&& a.payment_method@ == b.payment_method@
    &&& (match (a.maker_node_address, b.maker_node_address) {
        (None, None) => true,
        (Some(x), Some(y)) => x.host_name@ == y.host_name@ && x.port == y.port,
        _ => false,
    })
    &&& a.currency_code@ == b.currency_code@
    &&& a.created_at == b.created_at
    &&& a.sequence == b.sequence
}

/// The offer `o` stamped with sequence `s`.
pub open spec fn with_sequence(o: OpenOffer, s: OfferSequence) -> OpenOffer {
    OpenOffer { sequence: s, ..o }
}

impl OpenOffer {
    /// Projects an offer payload into an open offer under its storage key.
    pub fn from_payload(bisq_hash: SequencedMessageHash, p: &OfferPayload, seq: u32) -> (r:
        OpenOffer)
        ensures
            open_offer_matches(r, bisq_hash.spec_bytes(), *p, seq),
    {
        let maker: Option<NodeAddress> = match &p.owner_node_address {
            None => None,
            Some(a) => Some(
                NodeAddress { host_name: copy_bytes(a.host_name.as_slice()), port: a.port },
            ),
        };
        OpenOffer {
            bisq_hash,
            id: copy_bytes(p.id.as_slice()),
            direction: p.direction,
            price: p.price,
            amount: p.amount,
            min_amount: p.min_amount,
            payment_method: copy_bytes(p.payment_method_id.as_slice()),
            maker_node_address: maker,
            currency_code: copy_bytes(p.counter_currency_code.as_slice()),
            created_at: p.date,
            sequence: OfferSequence(seq),
        }
    }

    /// A fresh open offer with the same contents.
    pub fn duplicate(&self) -> (r: OpenOffer)
        requires
            self.bisq_hash.wf(),
        ensures
            open_offer_eq(r, *self),
    {
        let maker: Option<NodeAddress> = match &self.maker_node_address {
            None => None,
            Some(a) => Some(
                NodeAddress { host_name: copy_bytes(a.host_name.as_slice()), port: a.port },
            ),
        };
        OpenOffer {
            bisq_hash: self.bisq_hash.duplicate(),
            id: copy_bytes(self.id.as_slice()),
            direction: self.direction,
            price: self.price,
            amount: self.amount,
            min_amount: self.min_amount,
            payment_method: copy_bytes(self.payment_method.as_slice()),
            maker_node_address: maker,
            currency_code: copy_bytes(self.currency_code.as_slice()),
            created_at: self.created_at,
            sequence: self.sequence,
        }
    }
}

/// The book of open offers, keyed by the backing entry's content hash.
pub struct OfferBook {
    offers: Vec<(SequencedMessageHash, OpenOffer)>,
}

impl OfferBook {
    /// The book as a map from storage key to open offer.
    pub closed spec fn as_map(&self) -> Map<Seq<u8>, OpenOffer> {
        pairs_map(self.offers@)
    }

    /// One offer per key, every key well formed.
    pub closed spec fn wf(&self) -> bool {
        &&& distinct_keys(self.offers@)
        &&& forall|i: int|
            0 <= i < self.offers@.len() ==> (#[trigger] self.offers@[i].1).bisq_hash.wf()
    }

    /// An empty book.
    pub fn new() -> (r: OfferBook)
        ensures
            r.wf(),
            r.as_map() == Map::<Seq<u8>, OpenOffer>::empty(),
    {
        OfferBook { offers: Vec::new() }
    }

    /// Publishes or replaces the offer stored under its own key.
    pub fn add_offer(&mut self, msg: AddOffer) -> (r: CommandResult)
        requires
            old(self).wf(),
            msg.0.bisq_hash.wf(),
        ensures
            final(self).wf(),
            r == CommandResult::Accepted,
            final(self).as_map() == old(self).as_map().insert(
                msg.0.bisq_hash.spec_bytes(),
                msg.0,
            ),
    {
        let offer = msg.0;
        let key = offer.bisq_hash.duplicate();
        proof {
            lemma_pairs_map_domain(self.offers@);
        }
        match find_index(&self.offers, &key) {
            Some(i) => {
                let ghost s0 = self.offers@;
                self.offers.remove(i);
                self.offers.insert(i, (key, offer));
                proof {
                    assert(self.offers@ =~= s0.update(i as int, self.offers@[i as int]));
                    lemma_pairs_map_update(s0, i as int, self.offers@[i as int]);
                    assert forall|a: int, b: int| 0 <= a < b < self.offers@.len() implies self
                        .offers@[a].0.spec_bytes() != self.offers@[b].0.spec_bytes() by {
                        assert(self.offers@[a].0.spec_bytes() == s0[a].0.spec_bytes());
                        assert(self.offers@[b].0.spec_bytes() == s0[b].0.spec_bytes());
                    }
                }
                CommandResult::Accepted
            },
            None => {
                let ghost s0 = self.offers@;
                self.offers.push((key, offer));
                proof {
                    assert forall|a: int, b: int| 0 <= a < b < self.offers@.len() implies self
                        .offers@[a].0.spec_bytes() != self.offers@[b].0.spec_bytes() by {
                        if b == s0.len() {
                            assert(s0[a].0.spec_bytes() != key.spec_bytes());
                        }
                    }
                    assert(self.offers@.drop_last() =~= s0);
                }
                CommandResult::Accepted
            },
        }
    }

    /// Bumps the sequence stamp of the offer under a key; ignored when the
    /// key is absent.
    pub fn refresh_offer(&mut self, msg: RefreshOffer) -> (r: CommandResult)
        requires
            old(self).wf(),
        ensures
            final(self).wf(),
            ({
                let m = old(self).as_map();
                let k = msg.bisq_hash.spec_bytes();
                if m.contains_key(k) {
                    r == CommandResult::Accepted && final(self).as_map() == m.insert(
                        k,
                        with_sequence(m[k], msg.sequence),
                    )
                } else {
                    r == CommandResult::Ignored && final(self).as_map() == m
                }
            }),
    {
        proof {
            lemma_pairs_map_domain(self.offers@);
        }
        match find_index(&self.offers, &msg.bisq_hash) {
            None => CommandResult::Ignored,
            Some(i) => {
                let ghost s0 = self.offers@;
                proof {
                    lemma_pairs_map_at(s0, i as int);
                }
                let (k, o) = self.offers.remove(i);
                let o2 = OpenOffer { sequence: msg.sequence, ..o };
                self.offers.insert(i, (k, o2));
                proof {
                    assert(self.offers@ =~= s0.update(i as int, self.offers@[i as int]));
                    lemma_pairs_map_update(s0, i as int, self.offers@[i as int]);
                    assert forall|a: int, b: int| 0 <= a < b < self.offers@.len() implies self
                        .offers@[a].0.spec_bytes() != self.offers@[b].0.spec_bytes() by {
                        assert(self.offers@[a].0.spec_bytes() == s0[a].0.spec_bytes());
                        assert(self.offers@[b].0.spec_bytes() == s0[b].0.spec_bytes());
                    }
                }
                CommandResult::Accepted
            },
        }
    }

    /// Deletes the offer under a key; a no-op when the key is absent.
    pub fn remove_offer(&mut self, key: &SequencedMessageHash)
        requires
            old(self).wf(),
        ensures
            final(self).wf(),
            final(self).as_map() == old(self).as_map().remove(key.spec_bytes()),
    {
        proof {
            lemma_pairs_map_domain(self.offers@);
        }
        match find_index(&self.offers, key) {
            None => {
                proof {
                    assert(self.as_map() =~= self.as_map().remove(key.spec_bytes()));
                }
            },
            Some(i) => {
                let ghost s0 = self.offers@;
                proof {
                    lemma_pairs_map_remove(s0, i as int);
                }
                self.offers.remove(i);
                proof {
                    assert forall|a: int, b: int| 0 <= a < b < self.offers@.len() implies self
                        .offers@[a].0.spec_bytes() != self.offers@[b].0.spec_bytes() by {
                        if a < i as int {
                            assert(self.offers@[a] == s0[a]);
                        } else {
                            assert(self.offers@[a] == s0[a + 1]);
                        }
                        if b < i as int {
                            assert(self.offers@[b] == s0[b]);
                        } else {
                            assert(self.offers@[b] == s0[b + 1]);
                        }
                    }
                }
            },
        }
    }

    /// A point-in-time snapshot of the open offers; order unspecified.
    pub fn get_open_offers(&self, _msg: GetOpenOffers) -> (r: Vec<OpenOffer>)
        requires
            self.wf(),
        ensures
            r@.len() == self.spec_len(),
            forall|i: int|
                0 <= i < r@.len() ==> open_offer_eq(#[trigger] r@[i], self.offer_at(i)),
    {
        let mut out: Vec<OpenOffer> = Vec::new();
        let mut i: usize = 0;
        while i < self.offers.len()
            invariant
                self.wf(),
                i <= self.offers@.len(),
                out@.len() == i,
                forall|j: int| 0 <= j < i ==> open_offer_eq(#[trigger] out@[j], self.offers@[j].1),
            decreases self.offers@.len() - i,
        {
            proof {
                assert((self.offers@[i as int].1).bisq_hash.wf());
            }
            out.push(self.offers[i].1.duplicate());
            i = i + 1;
        }
        out
    }

    /// Number of open offers.
    pub closed spec fn spec_len(&self) -> nat {
        self.offers@.len()
    }

    /// The offer stored at a position.
    pub closed spec fn offer_at(&self, i: int) -> OpenOffer {
        self.offers@[i].1
    }

    /// The key stored at a position.
    pub closed spec fn key_at(&self, i: int) -> Seq<u8> {
        self.offers@[i].0.spec_bytes()
    }

    /// Number of open offers.
    pub fn len(&self) -> (r: usize)
        ensures
            r == self.spec_len(),
    {
        self.offers.len()
    }

    /// The positions and the book's keys correspond one to one: distinct
    /// positions carry distinct keys, and every key of the book's map
    /// appears at some position, so a walk over the positions omits no
    /// offer and repeats none.
    pub proof fn lemma_positions_cover_map(&self)
        requires
            self.wf(),
        ensures
            forall|i: int, j: int|
                0 <= i < j < self.spec_len() ==> self.key_at(i) != self.key_at(j),
            forall|k: Seq<u8>| #[trigger]
                self.as_map().contains_key(k) ==> exists|i: int|
                    0 <= i < self.spec_len() && self.key_at(i) == k,
    {
        lemma_pairs_map_domain(self.offers@);
        assert forall|k: Seq<u8>| #[trigger] self.as_map().contains_key(k) implies exists|i: int|
            0 <= i < self.spec_len() && self.key_at(i) == k by {
            let i = choose|i: int| 0 <= i < self.offers@.len() && self.offers@[i].0.spec_bytes() == k;
            assert(self.key_at(i) == k);
        }
    }

    /// The keyed offers as the map view sees them: the offer at each
    /// position is the map's value under its key.
    pub proof fn lemma_offers_indexed(&self, i: int)
        requires
            self.wf(),
            0 <= i < self.spec_len(),
        ensures
            self.as_map().contains_key(self.key_at(i)),
            self.as_map()[self.key_at(i)] == self.offer_at(i),
    {
        lemma_pairs_map_at(self.offers@, i);
    }
}

} // verus!
