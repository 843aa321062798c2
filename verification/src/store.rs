//! The protected storage map and the persistable payload set, and the data
//! store that composes them with the offer-book projection.
//!
//! The storage map accepts an entry only after verifying the key binding
//! and the DSA signature, and it never lets a sequence number move
//! backwards.  The persistable set is append-only and idempotent.  The data
//! store keeps the offer book exactly consistent with the offer-bearing
//! entries of the map.

use vstd::prelude::*;
use crate::crypto::{
    PersistentMessageHash, SequencedMessageHash, bisq_hash_of, entry_valid, persistable_hash_of,
    persistable_wf, refresh_valid,
};
use crate::keymap::{
    distinct_keys, find_index, lemma_pairs_map_at, lemma_pairs_map_domain,
    lemma_pairs_map_update, pairs_map,
};
use crate::message::{AddOffer, CommandResult, GetOpenOffers, RefreshOffer};
use crate::offer_book::{OfferBook, OfferSequence, OpenOffer, open_offer_matches, with_sequence};
use crate::payload::{
    PersistableNetworkPayload, ProtectedStorageEntry, RefreshOfferMessage, StoragePayload,
};
use crate::wire::bytes_eq;

verus! {

/// The offer payload inside an entry, if the entry carries one.
pub open spec fn entry_offer(e: ProtectedStorageEntry) -> Option<crate::payload::OfferPayload> {
    match e.storage_payload {
        Some(StoragePayload::OfferPayload(op)) => Some(op),
        _ => None,
    }
}

/// A stored pair is well formed: the key is the payload's content hash,
/// and the entry passed verification.
pub open spec fn stored_pair_ok(pr: (SequencedMessageHash, ProtectedStorageEntry)) -> bool {
    &&& pr.0.wf()
    &&& entry_valid(pr.1)
    &&& match pr.1.storage_payload {
        Some(p) => pr.0.spec_bytes() == bisq_hash_of(p),
        None => false,
    }
}

/// What `add` answers on a given map state.
pub open spec fn add_result(
    m: Map<Seq<u8>, ProtectedStorageEntry>,
    entry: ProtectedStorageEntry,
) -> CommandResult {
    if !entry_valid(entry) {
        CommandResult::Ignored
    } else {
        match entry.storage_payload {
            None => CommandResult::Ignored,
            Some(p) => {
                let k = bisq_hash_of(p);
                if m.contains_key(k) && m[k].sequence_number >= entry.sequence_number {
                    CommandResult::Ignored
                } else {
                    CommandResult::Accepted
                }
            },
        }
    }
}

/// The map state after `add`.
pub open spec fn add_map(
    m: Map<Seq<u8>, ProtectedStorageEntry>,
    entry: ProtectedStorageEntry,
) -> Map<Seq<u8>, ProtectedStorageEntry> {
    if add_result(m, entry) == CommandResult::Accepted {
        m.insert(bisq_hash_of(entry.storage_payload.unwrap()), entry)
    } else {
        m
    }
}

/// The entry `e` with the sequence number and signature of a refresh.
pub open spec fn refreshed_entry(
    e: ProtectedStorageEntry,
    msg: RefreshOfferMessage,
) -> ProtectedStorageEntry {
    ProtectedStorageEntry {
        sequence_number: msg.sequence_number,
        signature: msg.signature,
        ..e
    }
}

/// What `refresh` answers on a given map state.
pub open spec fn refresh_result(
    m: Map<Seq<u8>, ProtectedStorageEntry>,
    msg: RefreshOfferMessage,
) -> CommandResult {
    if msg.hash_of_payload@.len() != 32 {
        CommandResult::Ignored
    } else {
        let k = msg.hash_of_payload@;
        if !m.contains_key(k) {
            CommandResult::Ignored
        } else {
            match m[k].storage_payload {
                None => CommandResult::Ignored,
                Some(p) => {
                    if refresh_valid(msg, m[k].owner_pub_key_bytes@, p) && msg.sequence_number
                        > m[k].sequence_number {
                        CommandResult::Accepted
                    } else {
                        CommandResult::Ignored
                    }
                },
            }
        }
    }
}

/// The map state after `refresh`.
pub open spec fn refresh_map(
    m: Map<Seq<u8>, ProtectedStorageEntry>,
    msg: RefreshOfferMessage,
) -> Map<Seq<u8>, ProtectedStorageEntry> {
    if refresh_result(m, msg) == CommandResult::Accepted {
        m.insert(msg.hash_of_payload@, refreshed_entry(m[msg.hash_of_payload@], msg))
    } else {
        m
    }
}

/// The keyed store of signed, sequence-numbered entries.
pub struct StorageMap {
    entries: Vec<(SequencedMessageHash, ProtectedStorageEntry)>,
}

impl StorageMap {
    /// The store as a map from content hash to entry.
    pub closed spec fn as_map(&self) -> Map<Seq<u8>, ProtectedStorageEntry> {
        pairs_map(self.entries@)
    }

    /// Keys are distinct and every stored pair passed validation.
    pub closed spec fn wf(&self) -> bool {
        &&& distinct_keys(self.entries@)
        &&& forall|i: int| 0 <= i < self.entries@.len() ==> stored_pair_ok(#[trigger] self.entries@[i])
    }

    /// An empty store.
    pub fn new() -> (r: StorageMap)
        ensures
            r.wf(),
            r.as_map() == Map::<Seq<u8>, ProtectedStorageEntry>::empty(),
    {
        StorageMap { entries: Vec::new() }
    }

    /// Every stored entry is valid and keyed by its payload's hash.
    pub proof fn lemma_stored_entries_valid(&self, k: Seq<u8>)
        requires
            self.wf(),
            self.as_map().contains_key(k),
        ensures
            entry_valid(self.as_map()[k]),
            match self.as_map()[k].storage_payload {
                Some(p) => k == bisq_hash_of(p),
                None => false,
            },
    {
        lemma_pairs_map_domain(self.entries@);
        let i = choose|i: int|
            0 <= i < self.entries@.len() && self.entries@[i].0.spec_bytes() == k;
        lemma_pairs_map_at(self.entries@, i);
        assert(stored_pair_ok(self.entries@[i]));
    }

    /// Validates an entry and inserts or replaces it; the answer and the
    /// new state follow the add transition exactly, and sequence numbers
    /// never decrease.
    pub fn add(&mut self, entry: ProtectedStorageEntry) -> (r: CommandResult)
        requires
            old(self).wf(),
        ensures
            final(self).wf(),
            r == add_result(old(self).as_map(), entry),
            final(self).as_map() == add_map(old(self).as_map(), entry),
    {
        let hash = match entry.verify() {
            None => {
                return CommandResult::Ignored;
            },
            Some(h) => h,
        };
        proof {
            lemma_pairs_map_domain(self.entries@);
        }
        match find_index(&self.entries, &hash) {
            Some(i) => {
                proof {
                    lemma_pairs_map_at(self.entries@, i as int);
                    assert(stored_pair_ok(self.entries@[i as int]));
                }
                let existing_seq = self.entries[i].1.sequence_number;
                if entry.sequence_number > existing_seq {
                    let ghost s0 = self.entries@;
                    self.entries.remove(i);
                    self.entries.insert(i, (hash, entry));
                    proof {
                        assert(self.entries@ =~= s0.update(i as int, self.entries@[i as int]));
                        lemma_pairs_map_update(s0, i as int, self.entries@[i as int]);
                        assert forall|a: int, b: int|
                            0 <= a < b < self.entries@.len() implies self.entries@[a].0.spec_bytes()
                            != self.entries@[b].0.spec_bytes() by {
                            assert(self.entries@[a].0.spec_bytes() == s0[a].0.spec_bytes());
                            assert(self.entries@[b].0.spec_bytes() == s0[b].0.spec_bytes());
                        }
                        assert forall|a: int| 0 <= a < self.entries@.len() implies stored_pair_ok(
                            #[trigger] self.entries@[a],
                        ) by {
                            if a != i as int {
                                assert(self.entries@[a] == s0[a]);
                                assert(stored_pair_ok(s0[a]));
                            }
                        }
                    }
                    CommandResult::Accepted
                } else {
                    CommandResult::Ignored
                }
            },
            None => {
                let ghost s0 = self.entries@;
                self.entries.push((hash, entry));
                proof {
                    assert(self.entries@.drop_last() =~= s0);
                    assert forall|a: int, b: int|
                        0 <= a < b < self.entries@.len() implies self.entries@[a].0.spec_bytes()
                        != self.entries@[b].0.spec_bytes() by {
                        if b == s0.len() {
                            assert(s0[a].0.spec_bytes() != hash.spec_bytes());
                        } else {
                            assert(self.entries@[a] == s0[a]);
                            assert(self.entries@[b] == s0[b]);
                        }
                    }
                    assert forall|a: int| 0 <= a < self.entries@.len() implies stored_pair_ok(
                        #[trigger] self.entries@[a],
                    ) by {
                        if a < s0.len() {
                            assert(self.entries@[a] == s0[a]);
                            assert(stored_pair_ok(s0[a]));
                        }
                    }
                }
                CommandResult::Accepted
            },
        }
    }

    /// Applies a refresh: locates the entry, recomputes and checks the
    /// hash, requires a strictly larger sequence number, verifies the
    /// signature, then updates sequence number and signature in place.
    pub fn refresh(&mut self, msg: RefreshOfferMessage) -> (r: CommandResult)
        requires
            old(self).wf(),
        ensures
            final(self).wf(),
            r == refresh_result(old(self).as_map(), msg),
            final(self).as_map() == refresh_map(old(self).as_map(), msg),
    {
        if msg.hash_of_payload.len() != 32 {
            return CommandResult::Ignored;
        }
        let hash = msg.payload_hash();
        proof {
            lemma_pairs_map_domain(self.entries@);
        }
        match find_index(&self.entries, &hash) {
            None => CommandResult::Ignored,
            Some(i) => {
                proof {
                    lemma_pairs_map_at(self.entries@, i as int);
                    assert(stored_pair_ok(self.entries@[i as int]));
                }
                let valid: bool = {
                    let e = &self.entries[i].1;
                    match &e.storage_payload {
                        None => false,
                        Some(p) => msg.verify(e.owner_pub_key_bytes.as_slice(), p).is_some(),
                    }
                };
                if !valid {
                    return CommandResult::Ignored;
                }
                if msg.sequence_number <= self.entries[i].1.sequence_number {
                    return CommandResult::Ignored;
                }
                let ghost s0 = self.entries@;
                let (k, mut e) = self.entries.remove(i);
                e.sequence_number = msg.sequence_number;
                e.signature = msg.signature;
                self.entries.insert(i, (k, e));
                proof {
                    assert(self.entries@ =~= s0.update(i as int, self.entries@[i as int]));
                    lemma_pairs_map_update(s0, i as int, self.entries@[i as int]);
                    assert forall|a: int, b: int|
                        0 <= a < b < self.entries@.len() implies self.entries@[a].0.spec_bytes()
                        != self.entries@[b].0.spec_bytes() by {
                        assert(self.entries@[a].0.spec_bytes() == s0[a].0.spec_bytes());
                        assert(self.entries@[b].0.spec_bytes() == s0[b].0.spec_bytes());
                    }
                    assert forall|a: int| 0 <= a < self.entries@.len() implies stored_pair_ok(
                        #[trigger] self.entries@[a],
                    ) by {
                        if a != i as int {
                            assert(self.entries@[a] == s0[a]);
                            assert(stored_pair_ok(s0[a]));
                        }
                    }
                }
                CommandResult::Accepted
            },
        }
    }

    /// The entry stored under a key.
    pub fn get(&self, key: &SequencedMessageHash) -> (r: Option<&ProtectedStorageEntry>)
        requires
            self.wf(),
        ensures
            match r {
                Some(e) => self.as_map().contains_key(key.spec_bytes()) && *e == self.as_map()[
                    key.spec_bytes()
                ],
                None => !self.as_map().contains_key(key.spec_bytes()),
            },
    {
        proof {
            lemma_pairs_map_domain(self.entries@);
        }
        match find_index(&self.entries, key) {
            None => None,
            Some(i) => {
                proof {
                    lemma_pairs_map_at(self.entries@, i as int);
                }
                Some(&self.entries[i].1)
            },
        }
    }

    /// Whether an entry is stored under a key.
    pub fn contains(&self, key: &SequencedMessageHash) -> (r: bool)
        requires
            self.wf(),
        ensures
            r == self.as_map().contains_key(key.spec_bytes()),
    {
        proof {
            lemma_pairs_map_domain(self.entries@);
        }
        match find_index(&self.entries, key) {
            None => false,
            Some(i) => {
                proof {
                    lemma_pairs_map_at(self.entries@, i as int);
                }
                true
            },
        }
    }

    /// The stored pairs, for iteration.
    pub fn snapshot(&self) -> (r: &Vec<(SequencedMessageHash, ProtectedStorageEntry)>)
        ensures
            r@ == self.entries_view(),
    {
        &self.entries
    }

    /// The stored pairs as a sequence.
    pub closed spec fn entries_view(&self) -> Seq<(SequencedMessageHash, ProtectedStorageEntry)> {
        self.entries@
    }
}

/// The set of content-addressed immutable payloads, keyed by their
/// RIPEMD-160 identity hash.
pub struct PersistableSet {
    items: Vec<(PersistentMessageHash, PersistableNetworkPayload)>,
}

/// The key set denoted by the stored pairs.
pub open spec fn pset_keys(s: Seq<(PersistentMessageHash, PersistableNetworkPayload)>) -> Set<
    Seq<u8>,
>
    decreases s.len(),
{
    if s.len() == 0 {
        Set::empty()
    } else {
        pset_keys(s.drop_last()).insert(s.last().0.spec_bytes())
    }
}

/// Some stored pair carries key `k`.
pub open spec fn pset_has_key(
    s: Seq<(PersistentMessageHash, PersistableNetworkPayload)>,
    k: Seq<u8>,
) -> bool {
    exists|i: int| 0 <= i < s.len() && s[i].0.spec_bytes() == k
}

pub proof fn lemma_pset_keys_domain(s: Seq<(PersistentMessageHash, PersistableNetworkPayload)>)
    ensures
        forall|k: Seq<u8>| #[trigger] pset_keys(s).contains(k) <==> pset_has_key(s, k),
    decreases s.len(),
{
    if s.len() == 0 {
    } else {
        lemma_pset_keys_domain(s.drop_last());
        assert forall|k: Seq<u8>| #[trigger] pset_keys(s).contains(k) <==> pset_has_key(s, k) by {
            let lk = s.last().0.spec_bytes();
            if k == lk {
                assert(s[s.len() - 1].0.spec_bytes() == k);
                assert(pset_has_key(s, k));
            } else {
                if pset_keys(s).contains(k) {
                    assert(pset_keys(s.drop_last()).contains(k));
                    assert(pset_has_key(s.drop_last(), k));
                    let i = choose|i: int|
                        0 <= i < s.drop_last().len() && s.drop_last()[i].0.spec_bytes() == k;
                    assert(s[i].0.spec_bytes() == k);
                    assert(pset_has_key(s, k));
                }
                if pset_has_key(s, k) {
                    let i = choose|i: int| 0 <= i < s.len() && s[i].0.spec_bytes() == k;
                    assert(i != s.len() - 1);
                    assert(s.drop_last()[i].0.spec_bytes() == k);
                    assert(pset_has_key(s.drop_last(), k));
                    assert(pset_keys(s.drop_last()).contains(k));
                    assert(pset_keys(s).contains(k));
                }
            }
        }
    }
}

impl PersistableSet {
    /// The set of stored identity hashes.
    pub closed spec fn keys(&self) -> Set<Seq<u8>> {
        pset_keys(self.items@)
    }

    /// Number of stored payloads.
    pub closed spec fn spec_len(&self) -> nat {
        self.items@.len()
    }

    /// An empty set.
    pub fn new() -> (r: PersistableSet)
        ensures
            r.keys() == Set::<Seq<u8>>::empty(),
            r.spec_len() == 0,
    {
        PersistableSet { items: Vec::new() }
    }

    /// Number of stored payloads.
    pub fn len(&self) -> (r: usize)
        ensures
            r == self.spec_len(),
    {
        self.items.len()
    }

    /// Whether a payload with this identity hash is stored.
    pub fn contains(&self, key: &PersistentMessageHash) -> (r: bool)
        ensures
            r == self.keys().contains(key.spec_bytes()),
    {
        proof {
            lemma_pset_keys_domain(self.items@);
        }
        let mut i: usize = 0;
        while i < self.items.len()
            invariant
                i <= self.items@.len(),
                forall|j: int| 0 <= j < i ==> self.items@[j].0.spec_bytes() != key.spec_bytes(),
            decreases self.items@.len() - i,
        {
            if bytes_eq(self.items[i].0.as_bytes(), key.as_bytes()) {
                proof {
                    lemma_pset_keys_domain(self.items@);
                    assert(pset_has_key(self.items@, key.spec_bytes()));
                }
                return true;
            }
            i = i + 1;
        }
        proof {
            lemma_pset_keys_domain(self.items@);
        }
        false
    }

    /// Adds a payload keyed by its identity hash.  Malformed payloads are
    /// dropped; re-adding a stored key is a no-op; otherwise the key set
    /// grows by exactly that key.
    pub fn add(&mut self, payload: PersistableNetworkPayload) -> (r: CommandResult)
        ensures
            !persistable_wf(payload) ==> r == CommandResult::Ignored
                && final(self).keys() == old(self).keys()
                && final(self).spec_len() == old(self).spec_len(),
            persistable_wf(payload) ==> ({
                let k = persistable_hash_of(payload);
                if old(self).keys().contains(k) {
                    r == CommandResult::Ignored
                        && final(self).keys() == old(self).keys()
                        && final(self).spec_len() == old(self).spec_len()
                } else {
                    r == CommandResult::Accepted
                        && final(self).keys() == old(self).keys().insert(k)
                        && final(self).spec_len() == old(self).spec_len() + 1
                }
            }),
    {
        if !payload.is_well_formed() {
            return CommandResult::Ignored;
        }
        let hash = payload.bisq_hash();
        if self.contains(&hash) {
            return CommandResult::Ignored;
        }
        let ghost s0 = self.items@;
        self.items.push((hash, payload));
        proof {
            assert(self.items@.drop_last() =~= s0);
        }
        CommandResult::Accepted
    }
}

/// Consistency of the offer book with the storage map: the book holds an
/// offer under exactly the keys whose entry carries an offer payload, each
/// agreeing field by field and stamped with the entry's current sequence
/// number.
pub open spec fn projection_ok(
    sm: Map<Seq<u8>, ProtectedStorageEntry>,
    bm: Map<Seq<u8>, OpenOffer>,
) -> bool {
    &&& forall|k: Seq<u8>| #[trigger]
        bm.contains_key(k) ==> sm.contains_key(k) && entry_offer(sm[k]) is Some
    &&& forall|k: Seq<u8>| #[trigger]
        sm.contains_key(k) && entry_offer(sm[k]) is Some ==> bm.contains_key(k)
            && open_offer_matches(bm[k], k, entry_offer(sm[k]).unwrap(), sm[k].sequence_number)
}

/// The storage subsystem: the protected storage map, the persistable
/// payload set, and the open-offer projection, kept consistent.
pub struct DataStore {
    storage: StorageMap,
    offer_book: OfferBook,
    persistables: PersistableSet,
}

impl DataStore {
    /// The protected storage map's state.
    pub closed spec fn storage_map(&self) -> Map<Seq<u8>, ProtectedStorageEntry> {
        self.storage.as_map()
    }

    /// The offer book's state.
    pub closed spec fn book_map(&self) -> Map<Seq<u8>, OpenOffer> {
        self.offer_book.as_map()
    }

    /// The stored persistable identity hashes.
    pub closed spec fn persistable_keys(&self) -> Set<Seq<u8>> {
        self.persistables.keys()
    }

    /// Number of stored persistable payloads.
    pub closed spec fn persistable_len(&self) -> nat {
        self.persistables.spec_len()
    }

    /// Components well formed and the projection consistent.
    pub closed spec fn wf(&self) -> bool {
        &&& self.storage.wf()
        &&& self.offer_book.wf()
        &&& projection_ok(self.storage.as_map(), self.offer_book.as_map())
    }

    /// An empty store.
    pub fn new() -> (r: DataStore)
        ensures
            r.wf(),
            r.storage_map() == Map::<Seq<u8>, ProtectedStorageEntry>::empty(),
            r.book_map() == Map::<Seq<u8>, OpenOffer>::empty(),
            r.persistable_keys() == Set::<Seq<u8>>::empty(),
            r.persistable_len() == 0,
    {
        DataStore {
            storage: StorageMap::new(),
            offer_book: OfferBook::new(),
            persistables: PersistableSet::new(),
        }
    }

    /// After any sequence of mutations, a well-formed store's offer book
    /// holds exactly the open offers derived from the offer-bearing
    /// entries of the storage map, each stamped with that entry's current
    /// sequence number.
    pub proof fn lemma_projection_consistency(&self)
        requires
            self.wf(),
        ensures
            projection_ok(self.storage_map(), self.book_map()),
    {
    }

    /// Routes a protected entry into the storage map and keeps the offer
    /// book in step.
    pub fn add_protected(&mut self, entry: ProtectedStorageEntry) -> (r: CommandResult)
        requires
            old(self).wf(),
        ensures
            final(self).wf(),
            r == add_result(old(self).storage_map(), entry),
            final(self).storage_map() == add_map(old(self).storage_map(), entry),
            final(self).persistable_keys() == old(self).persistable_keys(),
            final(self).persistable_len() == old(self).persistable_len(),
    {
        let hash = match entry.verify() {
            None => {
                return CommandResult::Ignored;
            },
            Some(h) => h,
        };
        let offer_proj: Option<OpenOffer> = match &entry.storage_payload {
            Some(StoragePayload::OfferPayload(op)) => Some(
                OpenOffer::from_payload(hash.duplicate(), op, entry.sequence_number),
            ),
            _ => None,
        };
        let ghost sm0 = self.storage.as_map();
        let ghost bm0 = self.offer_book.as_map();
        let r = self.storage.add(entry);
        match r {
            CommandResult::Ignored => {
                return CommandResult::Ignored;
            },
            CommandResult::Accepted => {},
        }
        let ghost k0 = hash.spec_bytes();
        match offer_proj {
            Some(offer) => {
                self.offer_book.add_offer(AddOffer(offer));
                proof {
                    let sm = self.storage.as_map();
                    let bm = self.offer_book.as_map();
                    assert forall|k: Seq<u8>| #[trigger]
                        bm.contains_key(k) implies sm.contains_key(k) && entry_offer(sm[k])
                        is Some by {
                        if k != k0 {
                            assert(bm0.contains_key(k));
                        }
                    }
                    assert forall|k: Seq<u8>| #[trigger]
                        sm.contains_key(k) && entry_offer(sm[k]) is Some implies bm.contains_key(
                        k,
                    ) && open_offer_matches(
                        bm[k],
                        k,
                        entry_offer(sm[k]).unwrap(),
                        sm[k].sequence_number,
                    ) by {
                        if k != k0 {
                            assert(sm0.contains_key(k));
                        }
                    }
                }
            },
            None => {
                self.offer_book.remove_offer(&hash);
                proof {
                    let sm = self.storage.as_map();
                    let bm = self.offer_book.as_map();
                    assert forall|k: Seq<u8>| #[trigger]
                        bm.contains_key(k) implies sm.contains_key(k) && entry_offer(sm[k])
                        is Some by {
                        assert(k != k0);
                        assert(bm0.contains_key(k));
                    }
                    assert forall|k: Seq<u8>| #[trigger]
                        sm.contains_key(k) && entry_offer(sm[k]) is Some implies bm.contains_key(
                        k,
                    ) && open_offer_matches(
                        bm[k],
                        k,
                        entry_offer(sm[k]).unwrap(),
                        sm[k].sequence_number,
                    ) by {
                        assert(k != k0);
                        assert(sm0.contains_key(k));
                    }
                }
            },
        }
        CommandResult::Accepted
    }

    /// Routes a refresh into the storage map and restamps the projected
    /// offer's sequence number.
    pub fn refresh(&mut self, msg: RefreshOfferMessage) -> (r: CommandResult)
        requires
            old(self).wf(),
        ensures
            final(self).wf(),
            r == refresh_result(old(self).storage_map(), msg),
            final(self).storage_map() == refresh_map(old(self).storage_map(), msg),
            final(self).persistable_keys() == old(self).persistable_keys(),
            final(self).persistable_len() == old(self).persistable_len(),
    {
        if msg.hash_of_payload.len() != 32 {
            return CommandResult::Ignored;
        }
        let hash = msg.payload_hash();
        let seq = msg.sequence_number;
        let ghost sm0 = self.storage.as_map();
        let ghost bm0 = self.offer_book.as_map();
        let r = self.storage.refresh(msg);
        match r {
            CommandResult::Ignored => {
                return CommandResult::Ignored;
            },
            CommandResult::Accepted => {},
        }
        let ghost k0 = hash.spec_bytes();
        let is_offer: bool = match self.storage.get(&hash) {
            Some(e) => matches!(&e.storage_payload, Some(StoragePayload::OfferPayload(_))),
            None => false,
        };
        if is_offer {
            proof {
                assert(bm0.contains_key(k0));
            }
            self.offer_book.refresh_offer(
                RefreshOffer { bisq_hash: hash, sequence: OfferSequence(seq) },
            );
        }
        proof {
            let sm = self.storage.as_map();
            let bm = self.offer_book.as_map();
            assert forall|k: Seq<u8>| #[trigger]
                bm.contains_key(k) implies sm.contains_key(k) && entry_offer(sm[k]) is Some by {
                if k != k0 {
                    assert(bm0.contains_key(k));
                }
            }
            assert forall|k: Seq<u8>| #[trigger]
                sm.contains_key(k) && entry_offer(sm[k]) is Some implies bm.contains_key(k)
                && open_offer_matches(
                bm[k],
                k,
                entry_offer(sm[k]).unwrap(),
                sm[k].sequence_number,
            ) by {
                if k != k0 {
                    assert(sm0.contains_key(k));
                }
            }
        }
        CommandResult::Accepted
    }

    /// Adds a persistable payload to the append-only set.
    pub fn add_persistable(&mut self, payload: PersistableNetworkPayload) -> (r: CommandResult)
        requires
            old(self).wf(),
        ensures
            final(self).wf(),
            final(self).storage_map() == old(self).storage_map(),
            final(self).book_map() == old(self).book_map(),
            !persistable_wf(payload) ==> r == CommandResult::Ignored
                && final(self).persistable_keys() == old(self).persistable_keys()
                && final(self).persistable_len() == old(self).persistable_len(),
            persistable_wf(payload) ==> ({
                let k = persistable_hash_of(payload);
                if old(self).persistable_keys().contains(k) {
                    r == CommandResult::Ignored
                        && final(self).persistable_keys() == old(self).persistable_keys()
                        && final(self).persistable_len() == old(self).persistable_len()
                } else {
                    r == CommandResult::Accepted
                        && final(self).persistable_keys() == old(self).persistable_keys().insert(k)
                        && final(self).persistable_len() == old(self).persistable_len() + 1
                }
            }),
    {
        self.persistables.add(payload)
    }

    /// A point-in-time snapshot of the open offers: one per position of
    /// the book, each view-equal to the book's offer there.
    pub fn get_open_offers(&self, msg: GetOpenOffers) -> (r: Vec<OpenOffer>)
        requires
            self.wf(),
        ensures
            r@.len() == self.open_offer_count(),
            forall|i: int|
                0 <= i < r@.len() ==> crate::offer_book::open_offer_eq(
                    #[trigger] r@[i],
                    self.book_offer_at(i),
                ),
    {
        self.offer_book.get_open_offers(msg)
    }

    /// Number of open offers in the projection.
    pub closed spec fn open_offer_count(&self) -> nat {
        self.offer_book.spec_len()
    }

    /// The offer the book holds at a position.
    pub closed spec fn book_offer_at(&self, i: int) -> OpenOffer {
        self.offer_book.offer_at(i)
    }

    /// The key the book holds at a position.
    pub closed spec fn book_key_at(&self, i: int) -> Seq<u8> {
        self.offer_book.key_at(i)
    }

    /// The snapshot positions and the book's keys correspond one to one:
    /// distinct positions carry distinct keys, and every key of the book
    /// appears at some position.  With the projection-consistency law, the
    /// snapshot therefore omits no offer-bearing entry of the storage map
    /// and repeats none.
    pub proof fn lemma_snapshot_coverage(&self)
        requires
            self.wf(),
        ensures
            forall|i: int, j: int|
                0 <= i < j < self.open_offer_count() ==> self.book_key_at(i) != self.book_key_at(j),
            forall|k: Seq<u8>| #[trigger]
                self.book_map().contains_key(k) ==> exists|i: int|
                    0 <= i < self.open_offer_count() && self.book_key_at(i) == k,
    {
        self.offer_book.lemma_positions_cover_map();
        assert forall|k: Seq<u8>| #[trigger] self.book_map().contains_key(k) implies exists|i: int|
            0 <= i < self.open_offer_count() && self.book_key_at(i) == k by {
            let i = choose|i: int|
                0 <= i < self.offer_book.spec_len() && self.offer_book.key_at(i) == k;
            assert(self.book_key_at(i) == k);
        }
    }

    /// Each snapshot position carries the book's offer under its key, so
    /// with the projection-consistency law the reply lists exactly the
    /// offers derived from the storage map, stamped with each entry's
    /// current sequence number.
    pub proof fn lemma_snapshot_position(&self, i: int)
        requires
            self.wf(),
            0 <= i < self.open_offer_count(),
        ensures
            self.book_map().contains_key(self.book_key_at(i)),
            self.book_map()[self.book_key_at(i)] == self.book_offer_at(i),
    {
        self.offer_book.lemma_offers_indexed(i);
    }

    /// Number of stored persistable payloads.
    pub fn persistable_count(&self) -> (r: usize)
        ensures
            r == self.persistable_len(),
    {
        self.persistables.len()
    }
}

} // verus!
