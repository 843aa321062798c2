//! Content hashing and signature verification.
//!
//! The two digests and the DSA check are outside calls; their results are
//! named by uninterpreted functions of the input bytes alone, and every
//! contract above them is stated over those names.

use vstd::prelude::*;
use ripemd::Digest;
use crate::codec::{
    data_and_seq_nr_bytes, encode_payload_with_seq, encode_storage_payload, storage_payload_bytes,
};
use crate::payload::{
    DataAndSeqNrPair, PersistableNetworkPayload, ProtectedStorageEntry, RefreshOfferMessage,
    StoragePayload, spec_signing_pub_key_bytes,
};
use crate::wire::bytes_eq;

verus! {

/// The SHA-256 digest of a byte string; a function of the bytes alone.
pub uninterp spec fn sha256_of(data: Seq<u8>) -> Seq<u8>;

/// The RIPEMD-160 digest of a byte string; a function of the bytes alone.
pub uninterp spec fn ripemd160_of(data: Seq<u8>) -> Seq<u8>;

/// Whether a DER-encoded DSA signature verifies a digest under a
/// DER-encoded public key; a function of the three byte strings alone.
pub uninterp spec fn dsa_verifies(pub_key_der: Seq<u8>, digest: Seq<u8>, signature: Seq<u8>) -> bool;

/// Relies on openssl::sha::sha256: the 32-byte SHA-256 digest, a function
/// of the input bytes alone.
#[verifier::external_body]
pub(crate) fn sha256_raw(data: &[u8]) -> (r: Vec<u8>)
    ensures
        r@ == sha256_of(data@),
        r@.len() == 32,
{
    openssl::sha::sha256(data).to_vec()
}

/// Relies on ripemd::Ripemd160 (through the Digest trait): the 20-byte
/// RIPEMD-160 digest, a function of the input bytes alone.
#[verifier::external_body]
pub(crate) fn ripemd160_raw(data: &[u8]) -> (r: Vec<u8>)
    ensures
        r@ == ripemd160_of(data@),
        r@.len() == 20,
{
    ripemd::Ripemd160::digest(data).to_vec()
}

/// Relies on openssl's Dsa::public_key_from_der, PKey::from_dsa,
/// Verifier::new_without_digest and Verifier::verify_oneshot: verifies a
/// DER DSA signature over an externally computed digest, with no digest
/// re-application.  Deterministic in its three inputs; a key that does not
/// parse, a malformed signature, and a cryptographic mismatch all come back
/// as false.
#[verifier::external_body]
pub(crate) fn dsa_verify_raw(pub_key_der: &[u8], digest: &[u8], signature: &[u8]) -> (r: bool)
    ensures
        r == dsa_verifies(pub_key_der@, digest@, signature@),
{
    let parsed = openssl::dsa::Dsa::public_key_from_der(pub_key_der);
    let dsa = match parsed { Ok(d) => d, Err(_) => return false };
    let key = match openssl::pkey::PKey::from_dsa(dsa) { Ok(k) => k, Err(_) => return false };
    let ver = openssl::sign::Verifier::new_without_digest(&key);
    let mut ver = match ver { Ok(v) => v, Err(_) => return false };
    matches!(ver.verify_oneshot(signature, digest), Ok(true))
}

/// A typed SHA-256 digest: the key of the protected storage map.
#[derive(Clone, Debug, PartialEq, Eq)]
pub struct SequencedMessageHash {
    bytes: Vec<u8>,
}

impl SequencedMessageHash {
    /// The digest bytes.
    pub closed spec fn spec_bytes(&self) -> Seq<u8> {
        self.bytes@
    }

    /// A well-formed value holds exactly 32 bytes.
    pub open spec fn wf(&self) -> bool {
        self.spec_bytes().len() == 32
    }

    /// Wraps 32 digest bytes.
    pub fn new(bytes: Vec<u8>) -> (r: Self)
        requires
            bytes@.len() == 32,
        ensures
            r.spec_bytes() == bytes@,
            r.wf(),
    {
        SequencedMessageHash { bytes }
    }

    /// The digest bytes as a slice.
    pub fn as_bytes(&self) -> (r: &[u8])
        ensures
            r@ == self.spec_bytes(),
    {
        self.bytes.as_slice()
    }

    /// Byte-for-byte equality of two digests.
    pub fn matches(&self, other: &SequencedMessageHash) -> (r: bool)
        ensures
            r == (self.spec_bytes() == other.spec_bytes()),
    {
        bytes_eq(self.bytes.as_slice(), other.bytes.as_slice())
    }
}

/// A typed RIPEMD-160 digest: the key of the persistable payload set.
#[derive(Clone, Debug, PartialEq, Eq)]
pub struct PersistentMessageHash {
    bytes: Vec<u8>,
}

impl PersistentMessageHash {
    /// The digest bytes.
    pub closed spec fn spec_bytes(&self) -> Seq<u8> {
        self.bytes@
    }

    /// A well-formed value holds exactly 20 bytes.
    pub open spec fn wf(&self) -> bool {
        self.spec_bytes().len() == 20
    }

    /// Wraps 20 digest bytes.
    pub fn new(bytes: Vec<u8>) -> (r: Self)
        requires
            bytes@.len() == 20,
        ensures
            r.spec_bytes() == bytes@,
            r.wf(),
    {
        PersistentMessageHash { bytes }
    }

    /// The digest bytes as a slice.
    pub fn as_bytes(&self) -> (r: &[u8])
        ensures
            r@ == self.spec_bytes(),
    {
        self.bytes.as_slice()
    }

    /// Byte-for-byte equality of two digests.
    pub fn matches(&self, other: &PersistentMessageHash) -> (r: bool)
        ensures
            r == (self.spec_bytes() == other.spec_bytes()),
    {
        bytes_eq(self.bytes.as_slice(), other.bytes.as_slice())
    }
}

/// The content hash of a storage payload: SHA-256 over its canonical
/// encoding.
pub open spec fn bisq_hash_of(p: StoragePayload) -> Seq<u8> {
    sha256_of(storage_payload_bytes(p))
}

/// The bytes that are hashed and signed to bind a payload to a sequence
/// number.
pub open spec fn entry_hash_input(p: StoragePayload, sequence_number: u32) -> Seq<u8> {
    data_and_seq_nr_bytes(DataAndSeqNrPair { payload: Some(p), sequence_number })
}

impl StoragePayload {
    /// Content hash of this payload: SHA-256 over the canonical encoding;
    /// it is the payload's identity in the storage map.
    pub fn bisq_hash(&self) -> (r: SequencedMessageHash)
        ensures
            r.spec_bytes() == bisq_hash_of(*self),
            r.wf(),
    {
        let enc = encode_storage_payload(self);
        SequencedMessageHash::new(sha256_raw(enc.as_slice()))
    }
}

/// SHA-256 over the canonical encoding of a payload paired with a sequence
/// number: the digest that the owner signs.
pub fn hash_of_payload_and_seq_nr(p: &StoragePayload, sequence_number: u32) -> (r: Vec<u8>)
    ensures
        r@ == sha256_of(entry_hash_input(*p, sequence_number)),
        r@.len() == 32,
{
    let input = encode_payload_with_seq(p, sequence_number);
    sha256_raw(input.as_slice())
}

/// Validity of a protected storage entry: the payload is present, its
/// declared signing key is present and equals the owner key, and the DSA
/// signature verifies the hash of payload and sequence number.
pub open spec fn entry_valid(e: ProtectedStorageEntry) -> bool {
    match e.storage_payload {
        None => false,
        Some(p) => match spec_signing_pub_key_bytes(p) {
            None => false,
            Some(k) => k@ == e.owner_pub_key_bytes@ && dsa_verifies(
                e.owner_pub_key_bytes@,
                sha256_of(entry_hash_input(p, e.sequence_number)),
                e.signature@,
            ),
        },
    }
}

impl ProtectedStorageEntry {
    /// Checks the key binding and the DSA signature; returns the payload's
    /// content hash exactly when the entry is valid.
    pub fn verify(&self) -> (r: Option<SequencedMessageHash>)
        ensures
            r is Some <==> entry_valid(*self),
            r matches Some(h) ==> match self.storage_payload {
                Some(p) => h.spec_bytes() == bisq_hash_of(p) && h.wf(),
                None => false,
            },
    {
        let payload = match &self.storage_payload {
            None => {
                return None;
            },
            Some(p) => p,
        };
        let key = match payload.signing_pub_key_bytes() {
            None => {
                return None;
            },
            Some(k) => k,
        };
        if !bytes_eq(key.as_slice(), self.owner_pub_key_bytes.as_slice()) {
            return None;
        }
        let digest = hash_of_payload_and_seq_nr(payload, self.sequence_number);
        if dsa_verify_raw(
            self.owner_pub_key_bytes.as_slice(),
            digest.as_slice(),
            self.signature.as_slice(),
        ) {
            Some(payload.bisq_hash())
        } else {
            None
        }
    }
}

/// Validity of a refresh against the stored payload and owner key: the
/// carried hash matches the recomputed hash of payload and new sequence
/// number, and the signature verifies that hash under the owner key.
pub open spec fn refresh_valid(
    m: RefreshOfferMessage,
    owner_pub_key: Seq<u8>,
    original_payload: StoragePayload,
) -> bool {
    &&& m.hash_of_data_and_seq_nr@ == sha256_of(
        entry_hash_input(original_payload, m.sequence_number),
    )
    &&& dsa_verifies(
        owner_pub_key,
        sha256_of(entry_hash_input(original_payload, m.sequence_number)),
        m.signature@,
    )
}

impl RefreshOfferMessage {
    /// The storage key this refresh points at, as a typed hash.
    pub fn payload_hash(&self) -> (r: SequencedMessageHash)
        requires
            self.hash_of_payload@.len() == 32,
        ensures
            r.spec_bytes() == self.hash_of_payload@,
            r.wf(),
    {
        let mut copy: Vec<u8> = Vec::new();
        copy.extend_from_slice(self.hash_of_payload.as_slice());
        SequencedMessageHash::new(copy)
    }

    /// Recomputes the hash of the stored payload with the new sequence
    /// number and checks it and the signature; succeeds exactly when both
    /// hold.  A tampered hash is rejected even if the signature verifies.
    pub fn verify(&self, owner_pub_key: &[u8], original_payload: &StoragePayload) -> (r: Option<
        (),
    >)
        ensures
            r is Some <==> refresh_valid(*self, owner_pub_key@, *original_payload),
    {
        let digest = hash_of_payload_and_seq_nr(original_payload, self.sequence_number);
        if !bytes_eq(digest.as_slice(), self.hash_of_data_and_seq_nr.as_slice()) {
            return None;
        }
        if dsa_verify_raw(owner_pub_key, digest.as_slice(), self.signature.as_slice()) {
            Some(())
        } else {
            None
        }
    }
}

/// Well-formedness of a persistable payload: the carried identity hash has
/// the 20 bytes of a RIPEMD-160 digest.  A countersigned witness computes
/// its hash instead of carrying one.
pub open spec fn persistable_wf(p: PersistableNetworkPayload) -> bool {
    match p {
        PersistableNetworkPayload::AccountAgeWitness(w) => w.hash@.len() == 20,
        PersistableNetworkPayload::TradeStatistics2(s) => s.hash@.len() == 20,
        PersistableNetworkPayload::ProposalPayload(pp) => pp.hash@.len() == 20,
        PersistableNetworkPayload::BlindVotePayload(b) => b.hash@.len() == 20,
        PersistableNetworkPayload::SignedWitness(_) => true,
    }
}

/// The identity hash of a persistable payload: the carried 20-byte hash,
/// or for a countersigned witness RIPEMD-160 over SHA-256 of witness hash,
/// signature and signer key.
pub open spec fn persistable_hash_of(p: PersistableNetworkPayload) -> Seq<u8> {
    match p {
        PersistableNetworkPayload::AccountAgeWitness(w) => w.hash@,
        PersistableNetworkPayload::TradeStatistics2(s) => s.hash@,
        PersistableNetworkPayload::ProposalPayload(pp) => pp.hash@,
        PersistableNetworkPayload::BlindVotePayload(b) => b.hash@,
        PersistableNetworkPayload::SignedWitness(w) => ripemd160_of(
            sha256_of(w.account_age_witness_hash@ + w.signature@ + w.signer_pub_key@),
        ),
    }
}

impl PersistableNetworkPayload {
    /// Whether the carried identity hash is well formed.
    pub fn is_well_formed(&self) -> (r: bool)
        ensures
            r == persistable_wf(*self),
    {
        match self {
            PersistableNetworkPayload::AccountAgeWitness(w) => w.hash.len() == 20,
            PersistableNetworkPayload::TradeStatistics2(s) => s.hash.len() == 20,
            PersistableNetworkPayload::ProposalPayload(pp) => pp.hash.len() == 20,
            PersistableNetworkPayload::BlindVotePayload(b) => b.hash.len() == 20,
            PersistableNetworkPayload::SignedWitness(_) => true,
        }
    }

    /// The identity hash of this payload; the key of the persistable set.
    pub fn bisq_hash(&self) -> (r: PersistentMessageHash)
        requires
            persistable_wf(*self),
        ensures
            r.spec_bytes() == persistable_hash_of(*self),
            r.wf(),
    {
        match self {
            PersistableNetworkPayload::AccountAgeWitness(w) => {
                let mut copy: Vec<u8> = Vec::new();
                copy.extend_from_slice(w.hash.as_slice());
                PersistentMessageHash::new(copy)
            },
            PersistableNetworkPayload::TradeStatistics2(s) => {
                let mut copy: Vec<u8> = Vec::new();
                copy.extend_from_slice(s.hash.as_slice());
                PersistentMessageHash::new(copy)
            },
            PersistableNetworkPayload::ProposalPayload(pp) => {
                let mut copy: Vec<u8> = Vec::new();
                copy.extend_from_slice(pp.hash.as_slice());
                PersistentMessageHash::new(copy)
            },
            PersistableNetworkPayload::BlindVotePayload(b) => {
                let mut copy: Vec<u8> = Vec::new();
                copy.extend_from_slice(b.hash.as_slice());
                PersistentMessageHash::new(copy)
            },
            PersistableNetworkPayload::SignedWitness(w) => {
                let mut data: Vec<u8> = Vec::new();
                data.extend_from_slice(w.account_age_witness_hash.as_slice());
                data.extend_from_slice(w.signature.as_slice());
                data.extend_from_slice(w.signer_pub_key.as_slice());
                proof {
                    assert(data@ =~= w.account_age_witness_hash@ + w.signature@
                        + w.signer_pub_key@);
                }
                let sha = sha256_raw(data.as_slice());
                PersistentMessageHash::new(ripemd160_raw(sha.as_slice()))
            },
        }
    }
}

} // verus!
