//! The system-wide laws of the storage subsystem, stated over the same
//! specification functions that the executable contracts use.

use vstd::prelude::*;
use crate::codec::storage_payload_bytes;
use crate::crypto::{bisq_hash_of, entry_hash_input, entry_valid, sha256_of};
use crate::message::CommandResult;
use crate::payload::{ProtectedStorageEntry, RefreshOfferMessage, StoragePayload};
use crate::store::{add_map, add_result, refresh_map, refresh_result};

verus! {

/// Hash stability: a payload decoded from a byte string hashes to the
/// digest of that byte string, so re-encoding a decoded payload yields
/// the same content hash.
pub proof fn lemma_hash_stability(p: StoragePayload, b: Seq<u8>)
    requires
        storage_payload_bytes(p) == b,
    ensures
        bisq_hash_of(p) == sha256_of(b),
{
}

/// Signature binding: an add commits only when the entry is valid — the
/// owner key equals the payload's declared signing key and the signature
/// verifies the hash of payload and sequence number; an invalid entry is
/// always ignored and leaves the map unchanged.
pub proof fn lemma_signature_binding(
    m: Map<Seq<u8>, ProtectedStorageEntry>,
    entry: ProtectedStorageEntry,
)
    ensures
        add_result(m, entry) == CommandResult::Accepted ==> entry_valid(entry),
        !entry_valid(entry) ==> add_result(m, entry) == CommandResult::Ignored && add_map(m, entry)
            == m,
{
}

/// Monotonicity under add: a stored sequence number never decreases, and
/// strictly increases at the touched key on every accepted add.
pub proof fn lemma_add_monotonic(
    m: Map<Seq<u8>, ProtectedStorageEntry>,
    entry: ProtectedStorageEntry,
    k: Seq<u8>,
)
    requires
        m.contains_key(k),
    ensures
        add_map(m, entry).contains_key(k),
        add_map(m, entry)[k].sequence_number >= m[k].sequence_number,
        (add_result(m, entry) == CommandResult::Accepted && (match entry.storage_payload {
            Some(p) => bisq_hash_of(p) == k,
            None => false,
        })) ==> add_map(m, entry)[k].sequence_number > m[k].sequence_number,
{
}

/// Monotonicity under refresh: a stored sequence number never decreases,
/// and strictly increases at the touched key on every accepted refresh.
pub proof fn lemma_refresh_monotonic(
    m: Map<Seq<u8>, ProtectedStorageEntry>,
    msg: RefreshOfferMessage,
    k: Seq<u8>,
)
    requires
        m.contains_key(k),
    ensures
        refresh_map(m, msg).contains_key(k),
        refresh_map(m, msg)[k].sequence_number >= m[k].sequence_number,
        (refresh_result(m, msg) == CommandResult::Accepted && msg.hash_of_payload@ == k)
            ==> refresh_map(m, msg)[k].sequence_number > m[k].sequence_number,
{
}

/// Refresh integrity: a refresh whose carried hash differs from the
/// recomputed hash of the stored payload and new sequence number is
/// always ignored and changes nothing, whatever its signature verifies.
pub proof fn lemma_refresh_integrity(
    m: Map<Seq<u8>, ProtectedStorageEntry>,
    msg: RefreshOfferMessage,
)
    requires
        m.contains_key(msg.hash_of_payload@),
        match m[msg.hash_of_payload@].storage_payload {
            Some(p) => msg.hash_of_data_and_seq_nr@ != sha256_of(
                entry_hash_input(p, msg.sequence_number),
            ),
            None => true,
        },
    ensures
        refresh_result(m, msg) == CommandResult::Ignored,
        refresh_map(m, msg) == m,
{
}

/// Idempotence of the persistable set: adding a payload makes its key
/// present, and inserting a present key changes nothing, so re-adding the
/// same payload leaves the set as it was.
pub proof fn lemma_persistable_idempotent(keys: Set<Seq<u8>>, k: Seq<u8>)
    ensures
        keys.insert(k).contains(k),
        keys.contains(k) ==> keys.insert(k) == keys,
{
    if keys.contains(k) {
        assert(keys.insert(k) =~= keys);
    }
}

} // verus!
