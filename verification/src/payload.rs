//! The semantic payload schema of the storage subsystem.
//!
//! Storage payloads form a tagged union; every variant carries the owner's
//! signing public key, directly or through an embedded key ring.  String and
//! bytes fields hold the raw wire bytes, so that the canonical encoding is a
//! pure function of the value.

use vstd::prelude::*;
use rand::Rng;

verus! {

/// Protocol-wide version constant of the peer-to-peer layer.
pub const P2P_NETWORK_VERSION: i32 = 1;

/// The base-currency network this node trades on.
#[derive(Clone, Copy, Debug, PartialEq, Eq, Structural)]
pub enum BaseCurrencyNetwork {
    BtcMainnet,
    BtcTestnet,
    BtcRegtest,
}

/// Numeric identifier of a base-currency network.
pub open spec fn network_id(n: BaseCurrencyNetwork) -> i32 {
    match n {
        BaseCurrencyNetwork::BtcMainnet => 0,
        BaseCurrencyNetwork::BtcTestnet => 1,
        BaseCurrencyNetwork::BtcRegtest => 2,
    }
}

impl BaseCurrencyNetwork {
    /// Numeric identifier of this network.
    pub fn id(&self) -> (r: i32)
        ensures
            r == network_id(*self),
    {
        match self {
            BaseCurrencyNetwork::BtcMainnet => 0,
            BaseCurrencyNetwork::BtcTestnet => 1,
            BaseCurrencyNetwork::BtcRegtest => 2,
        }
    }
}

/// The compatibility tag carried on wire envelopes:
/// network identifier plus ten times the peer-to-peer protocol version.
#[derive(Clone, Copy, Debug, PartialEq, Eq, Structural)]
pub struct MessageVersion(pub i32);

impl From<MessageVersion> for i32 {
    fn from(msg: MessageVersion) -> (r: i32) {
        msg.0
    }
}

impl vstd::std_specs::convert::FromSpecImpl<MessageVersion> for i32 {
    open spec fn obeys_from_spec() -> bool {
        true
    }

    open spec fn from_spec(msg: MessageVersion) -> i32 {
        msg.0
    }
}

impl From<BaseCurrencyNetwork> for MessageVersion {
    fn from(network: BaseCurrencyNetwork) -> (r: MessageVersion) {
        MessageVersion(network.id() + 10 * P2P_NETWORK_VERSION)
    }
}

impl vstd::std_specs::convert::FromSpecImpl<BaseCurrencyNetwork> for MessageVersion {
    open spec fn obeys_from_spec() -> bool {
        true
    }

    open spec fn from_spec(network: BaseCurrencyNetwork) -> MessageVersion {
        MessageVersion((network_id(network) + 10 * P2P_NETWORK_VERSION) as i32)
    }
}

/// Relies on rand::thread_rng and Rng::gen: a fresh random nonce; nothing
/// is promised of its value.
#[verifier::external_body]
pub fn gen_nonce() -> i32 {
    rand::thread_rng().gen()
}

/// Rejection of bytes that are not a canonical encoding.
#[derive(Clone, Copy, Debug, PartialEq, Eq, Structural)]
pub struct DecodeError;

/// Failure to encode; the canonical encoder never produces one.
#[derive(Clone, Copy, Debug, PartialEq, Eq, Structural)]
pub struct EncodeError;

/// A peer's address: host name (raw UTF-8 bytes) and TCP port.
#[derive(Clone, Debug, PartialEq, Eq)]
pub struct NodeAddress {
    pub host_name: Vec<u8>,
    pub port: u16,
}

/// The pair of public keys every identity-bearing payload embeds.
#[derive(Clone, Debug, PartialEq, Eq)]
pub struct PubKeyRing {
    pub signature_pub_key_bytes: Vec<u8>,
    pub encryption_pub_key_bytes: Vec<u8>,
}

/// Side of an offer.
#[derive(Clone, Copy, Debug, PartialEq, Eq)]
pub enum Direction {
    Unspecified,
    Buy,
    Sell,
}

/// Numeric wire value of a direction.
pub open spec fn direction_num(d: Direction) -> u64 {
    match d {
        Direction::Unspecified => 0,
        Direction::Buy => 1,
        Direction::Sell => 2,
    }
}

impl Direction {
    /// Numeric wire value of this direction.
    pub fn num(&self) -> (n: u64)
        ensures
            n == direction_num(*self),
    {
        match self {
            Direction::Unspecified => 0,
            Direction::Buy => 1,
            Direction::Sell => 2,
        }
    }
}

/// An open offer as gossiped by its maker.
#[derive(Clone, Debug, PartialEq, Eq)]
pub struct OfferPayload {
    pub id: Vec<u8>,
    pub date: u64,
    pub owner_node_address: Option<NodeAddress>,
    pub pub_key_ring: Option<PubKeyRing>,
    pub direction: Direction,
    pub price: u64,
    pub market_price_margin_bits: u64,
    pub use_market_based_price: bool,
    pub amount: u64,
    pub min_amount: u64,
    pub base_currency_code: Vec<u8>,
    pub counter_currency_code: Vec<u8>,
    pub arbitrator_node_addresses: Vec<NodeAddress>,
    pub mediator_node_addresses: Vec<NodeAddress>,
    pub payment_method_id: Vec<u8>,
    pub maker_payment_account_id: Vec<u8>,
    pub offer_fee_payment_tx_id: Vec<u8>,
    pub country_code: Vec<u8>,
    pub accepted_country_codes: Vec<Vec<u8>>,
    pub bank_id: Vec<u8>,
    pub accepted_bank_ids: Vec<Vec<u8>>,
    pub version_nr: Vec<u8>,
    pub block_height_at_offer_creation: u64,
    pub tx_fee: u64,
    pub maker_fee: u64,
    pub is_currency_for_maker_fee_btc: bool,
    pub buyer_security_deposit: u64,
    pub seller_security_deposit: u64,
    pub max_trade_limit: u64,
    pub max_trade_period: u64,
    pub extra_data: Vec<(Vec<u8>, Vec<u8>)>,
    pub protocol_version: u32,
}

/// A network-wide alert, signed by its publisher.
#[derive(Clone, Debug, PartialEq, Eq)]
pub struct Alert {
    pub message: Vec<u8>,
    pub requires_update: bool,
    pub min_version: Vec<u8>,
    pub owner_pub_key_bytes: Vec<u8>,
    pub signature_as_base64: Vec<u8>,
}

/// A registered arbitrator.
#[derive(Clone, Debug, PartialEq, Eq)]
pub struct Arbitrator {
    pub node_address: Option<NodeAddress>,
    pub pub_key_ring: Option<PubKeyRing>,
    pub registration_date: u64,
}

/// A registered mediator.
#[derive(Clone, Debug, PartialEq, Eq)]
pub struct Mediator {
    pub node_address: Option<NodeAddress>,
    pub pub_key_ring: Option<PubKeyRing>,
    pub registration_date: u64,
}

/// A registered refund agent.
#[derive(Clone, Debug, PartialEq, Eq)]
pub struct RefundAgent {
    pub node_address: Option<NodeAddress>,
    pub pub_key_ring: Option<PubKeyRing>,
    pub registration_date: u64,
}

/// The developer filter: offers and nodes banned from the network.
#[derive(Clone, Debug, PartialEq, Eq)]
pub struct Filter {
    pub signature_as_base64: Vec<u8>,
    pub owner_pub_key_bytes: Vec<u8>,
    pub banned_offer_ids: Vec<Vec<u8>>,
}

/// A legacy trade-statistics record.
#[derive(Clone, Debug, PartialEq, Eq)]
pub struct TradeStatistics {
    pub currency: Vec<u8>,
    pub trade_price: u64,
    pub trade_amount: u64,
    pub trade_date: u64,
    pub signature_pub_key_bytes: Vec<u8>,
}

/// A sealed message stored on behalf of an offline receiver.
#[derive(Clone, Debug, PartialEq, Eq)]
pub struct MailboxStoragePayload {
    pub prefixed_sealed_and_signed: Vec<u8>,
    pub sender_pub_key_for_add_operation_bytes: Vec<u8>,
    pub receiver_pub_key_for_remove_operation_bytes: Vec<u8>,
}

/// A DAO proposal in its temporary phase.
#[derive(Clone, Debug, PartialEq, Eq)]
pub struct TempProposalPayload {
    pub proposal: Vec<u8>,
    pub owner_pub_key_encoded: Vec<u8>,
}

/// The polymorphic storage payload: exactly one variant.
#[derive(Clone, Debug, PartialEq, Eq)]
pub enum StoragePayload {
    Alert(Alert),
    Arbitrator(Arbitrator),
    Mediator(Mediator),
    Filter(Filter),
    TradeStatistics(TradeStatistics),
    MailboxStoragePayload(MailboxStoragePayload),
    OfferPayload(OfferPayload),
    TempProposalPayload(TempProposalPayload),
    RefundAgent(RefundAgent),
}

/// The structure whose canonical encoding is hashed and signed: a storage
/// payload together with the sequence number it is bound to.
#[derive(Clone, Debug, PartialEq, Eq)]
pub struct DataAndSeqNrPair {
    pub payload: Option<StoragePayload>,
    pub sequence_number: u32,
}

/// A storage payload bound to its owner key, sequence number, and signature.
#[derive(Clone, Debug, PartialEq, Eq)]
pub struct ProtectedStorageEntry {
    pub storage_payload: Option<StoragePayload>,
    pub owner_pub_key_bytes: Vec<u8>,
    pub sequence_number: u32,
    pub signature: Vec<u8>,
}

/// A sequence-number bump for an already stored payload; the payload itself
/// is not retransmitted.
#[derive(Clone, Debug, PartialEq, Eq)]
pub struct RefreshOfferMessage {
    pub hash_of_payload: Vec<u8>,
    pub sequence_number: u32,
    pub hash_of_data_and_seq_nr: Vec<u8>,
    pub signature: Vec<u8>,
}

/// A proof that an account existed at some date.
#[derive(Clone, Debug, PartialEq, Eq)]
pub struct AccountAgeWitness {
    pub hash: Vec<u8>,
    pub date: u64,
}

/// A content-addressed trade-statistics record.
#[derive(Clone, Debug, PartialEq, Eq)]
pub struct TradeStatistics2 {
    pub hash: Vec<u8>,
    pub trade_price: u64,
    pub trade_amount: u64,
    pub trade_date: u64,
}

/// A content-addressed DAO proposal.
#[derive(Clone, Debug, PartialEq, Eq)]
pub struct ProposalPayload {
    pub hash: Vec<u8>,
    pub proposal: Vec<u8>,
}

/// A content-addressed blind vote.
#[derive(Clone, Debug, PartialEq, Eq)]
pub struct BlindVotePayload {
    pub hash: Vec<u8>,
    pub stake: u64,
}

/// A witness countersigned by another account.
#[derive(Clone, Debug, PartialEq, Eq)]
pub struct SignedWitness {
    pub account_age_witness_hash: Vec<u8>,
    pub signature: Vec<u8>,
    pub signer_pub_key: Vec<u8>,
    pub date: u64,
}

/// The immutable, content-addressed payload family.
#[derive(Clone, Debug, PartialEq, Eq)]
pub enum PersistableNetworkPayload {
    AccountAgeWitness(AccountAgeWitness),
    TradeStatistics2(TradeStatistics2),
    ProposalPayload(ProposalPayload),
    BlindVotePayload(BlindVotePayload),
    SignedWitness(SignedWitness),
}

impl StoragePayload {
    /// The owner's signing public key for the variant, traversing the
    /// embedded key ring where the identity is indirect; `None` when an
    /// inner structure is absent.
    pub fn signing_pub_key_bytes(&self) -> (r: Option<&Vec<u8>>)
        ensures
            match r {
                Some(b) => spec_signing_pub_key_bytes(*self) == Some(*b),
                None => spec_signing_pub_key_bytes(*self) is None,
            },
    {
        match self {
            StoragePayload::Alert(alert) => Some(&alert.owner_pub_key_bytes),
            StoragePayload::Arbitrator(arb) => match &arb.pub_key_ring {
                Some(ring) => Some(&ring.signature_pub_key_bytes),
                None => None,
            },
            StoragePayload::Mediator(med) => match &med.pub_key_ring {
                Some(ring) => Some(&ring.signature_pub_key_bytes),
                None => None,
            },
            StoragePayload::Filter(filter) => Some(&filter.owner_pub_key_bytes),
            StoragePayload::TradeStatistics(trade) => Some(&trade.signature_pub_key_bytes),
            StoragePayload::MailboxStoragePayload(payload) => Some(
                &payload.sender_pub_key_for_add_operation_bytes,
            ),
            StoragePayload::OfferPayload(offer) => match &offer.pub_key_ring {
                Some(ring) => Some(&ring.signature_pub_key_bytes),
                None => None,
            },
            StoragePayload::TempProposalPayload(payload) => Some(&payload.owner_pub_key_encoded),
            StoragePayload::RefundAgent(agent) => match &agent.pub_key_ring {
                Some(ring) => Some(&ring.signature_pub_key_bytes),
                None => None,
            },
        }
    }
}

/// The signing key bytes of a payload, if its inner structures are present.
pub open spec fn spec_signing_pub_key_bytes(p: StoragePayload) -> Option<Vec<u8>> {
    match p {
        StoragePayload::Alert(alert) => Some(alert.owner_pub_key_bytes),
        StoragePayload::Arbitrator(arb) => match arb.pub_key_ring {
            Some(ring) => Some(ring.signature_pub_key_bytes),
            None => None,
        },
        StoragePayload::Mediator(med) => match med.pub_key_ring {
            Some(ring) => Some(ring.signature_pub_key_bytes),
            None => None,
        },
        StoragePayload::Filter(filter) => Some(filter.owner_pub_key_bytes),
        StoragePayload::TradeStatistics(trade) => Some(trade.signature_pub_key_bytes),
        StoragePayload::MailboxStoragePayload(payload) => Some(
            payload.sender_pub_key_for_add_operation_bytes,
        ),
        StoragePayload::OfferPayload(offer) => match offer.pub_key_ring {
            Some(ring) => Some(ring.signature_pub_key_bytes),
            None => None,
        },
        StoragePayload::TempProposalPayload(payload) => Some(payload.owner_pub_key_encoded),
        StoragePayload::RefundAgent(agent) => match agent.pub_key_ring {
            Some(ring) => Some(ring.signature_pub_key_bytes),
            None => None,
        },
    }
}

} // verus!
