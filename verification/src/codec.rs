//! Canonical encoding of the payload schema.
//!
//! Every message has a specification-level byte string and an executable
//! encoder proved to produce exactly those bytes.  The decoders accept only
//! the canonical form: whenever one returns a value, the canonical encoding
//! of that value is the input byte string itself.

use vstd::prelude::*;
use crate::payload::{
    Alert, Arbitrator, DataAndSeqNrPair, Direction, EncodeError, Filter, MailboxStoragePayload, Mediator,
    NodeAddress, OfferPayload, PubKeyRing, RefundAgent, StoragePayload, TempProposalPayload,
    TradeStatistics, direction_num,
};
use crate::wire::{
    field_fix64, field_len, field_uint, le64_bytes, len_delim, opt_bool, opt_fix64, opt_len,
    opt_uint, varint_bytes, write_fix64_field, write_len_field, write_uint_field,
};

verus! {

/// Canonical bytes of a node address.
pub open spec fn node_address_bytes(a: NodeAddress) -> Seq<u8> {
    opt_len(1, a.host_name@) + opt_uint(2, a.port as u64)
}

/// Canonical bytes of a public-key ring.
pub open spec fn pub_key_ring_bytes(r: PubKeyRing) -> Seq<u8> {
    opt_len(1, r.signature_pub_key_bytes@) + opt_len(2, r.encryption_pub_key_bytes@)
}

/// An optional embedded node address field.
pub open spec fn opt_node_address(num: u64, a: Option<NodeAddress>) -> Seq<u8> {
    match a {
        None => Seq::empty(),
        Some(x) => field_len(num, node_address_bytes(x)),
    }
}

/// An optional embedded key-ring field.
pub open spec fn opt_pub_key_ring(num: u64, r: Option<PubKeyRing>) -> Seq<u8> {
    match r {
        None => Seq::empty(),
        Some(x) => field_len(num, pub_key_ring_bytes(x)),
    }
}

/// A repeated embedded node address field.
pub open spec fn rep_node_address(num: u64, s: Seq<NodeAddress>) -> Seq<u8>
    decreases s.len(),
{
    if s.len() == 0 {
        Seq::empty()
    } else {
        field_len(num, node_address_bytes(s[0])) + rep_node_address(num, s.drop_first())
    }
}

/// A repeated byte-string field.
pub open spec fn rep_len(num: u64, s: Seq<Vec<u8>>) -> Seq<u8>
    decreases s.len(),
{
    if s.len() == 0 {
        Seq::empty()
    } else {
        field_len(num, s[0]@) + rep_len(num, s.drop_first())
    }
}

/// Canonical bytes of one key-value entry of a string map.
pub open spec fn map_entry_bytes(e: (Vec<u8>, Vec<u8>)) -> Seq<u8> {
    field_len(1, e.0@) + field_len(2, e.1@)
}

/// A repeated map-entry field.
pub open spec fn rep_map_entry(num: u64, s: Seq<(Vec<u8>, Vec<u8>)>) -> Seq<u8>
    decreases s.len(),
{
    if s.len() == 0 {
        Seq::empty()
    } else {
        field_len(num, map_entry_bytes(s[0])) + rep_map_entry(num, s.drop_first())
    }
}

pub proof fn lemma_rep_node_address_push(num: u64, s: Seq<NodeAddress>, x: NodeAddress)
    ensures
        rep_node_address(num, s.push(x)) == rep_node_address(num, s) + field_len(
            num,
            node_address_bytes(x),
        ),
    decreases s.len(),
{
    if s.len() == 0 {
        assert(s.push(x).drop_first() =~= s);
        assert(rep_node_address(num, s.push(x)) =~= rep_node_address(num, s) + field_len(
            num,
            node_address_bytes(x),
        ));
    } else {
        lemma_rep_node_address_push(num, s.drop_first(), x);
        assert(s.push(x).drop_first() =~= s.drop_first().push(x));
        assert(rep_node_address(num, s.push(x)) =~= rep_node_address(num, s) + field_len(
            num,
            node_address_bytes(x),
        ));
    }
}

pub proof fn lemma_rep_len_push(num: u64, s: Seq<Vec<u8>>, x: Vec<u8>)
    ensures
        rep_len(num, s.push(x)) == rep_len(num, s) + field_len(num, x@),
    decreases s.len(),
{
    if s.len() == 0 {
        assert(s.push(x).drop_first() =~= s);
        assert(rep_len(num, s.push(x)) =~= rep_len(num, s) + field_len(num, x@));
    } else {
        lemma_rep_len_push(num, s.drop_first(), x);
        assert(s.push(x).drop_first() =~= s.drop_first().push(x));
        assert(rep_len(num, s.push(x)) =~= rep_len(num, s) + field_len(num, x@));
    }
}

pub proof fn lemma_rep_map_entry_push(num: u64, s: Seq<(Vec<u8>, Vec<u8>)>, x: (Vec<u8>, Vec<u8>))
    ensures
        rep_map_entry(num, s.push(x)) == rep_map_entry(num, s) + field_len(num, map_entry_bytes(x)),
    decreases s.len(),
{
    if s.len() == 0 {
        assert(s.push(x).drop_first() =~= s);
        assert(rep_map_entry(num, s.push(x)) =~= rep_map_entry(num, s) + field_len(
            num,
            map_entry_bytes(x),
        ));
    } else {
        lemma_rep_map_entry_push(num, s.drop_first(), x);
        assert(s.push(x).drop_first() =~= s.drop_first().push(x));
        assert(rep_map_entry(num, s.push(x)) =~= rep_map_entry(num, s) + field_len(
            num,
            map_entry_bytes(x),
        ));
    }
}

/// Canonical bytes of an alert.
pub open spec fn alert_bytes(a: Alert) -> Seq<u8> {
    opt_len(1, a.message@) + opt_bool(2, a.requires_update) + opt_len(3, a.min_version@) + opt_len(
        4,
        a.owner_pub_key_bytes@,
    ) + opt_len(5, a.signature_as_base64@)
}

/// Canonical bytes of an arbitrator record.
pub open spec fn arbitrator_bytes(x: Arbitrator) -> Seq<u8> {
    opt_node_address(1, x.node_address) + opt_pub_key_ring(2, x.pub_key_ring) + opt_uint(
        3,
        x.registration_date,
    )
}

/// Canonical bytes of a mediator record.
pub open spec fn mediator_bytes(x: Mediator) -> Seq<u8> {
    opt_node_address(1, x.node_address) + opt_pub_key_ring(2, x.pub_key_ring) + opt_uint(
        3,
        x.registration_date,
    )
}

/// Canonical bytes of a refund-agent record.
pub open spec fn refund_agent_bytes(x: RefundAgent) -> Seq<u8> {
    opt_node_address(1, x.node_address) + opt_pub_key_ring(2, x.pub_key_ring) + opt_uint(
        3,
        x.registration_date,
    )
}

/// Canonical bytes of a filter.
pub open spec fn filter_bytes(x: Filter) -> Seq<u8> {
    opt_len(1, x.signature_as_base64@) + opt_len(2, x.owner_pub_key_bytes@) + rep_len(
        3,
        x.banned_offer_ids@,
    )
}

/// Canonical bytes of a legacy trade-statistics record.
pub open spec fn trade_statistics_bytes(x: TradeStatistics) -> Seq<u8> {
    opt_len(1, x.currency@) + opt_uint(2, x.trade_price) + opt_uint(3, x.trade_amount) + opt_uint(
        4,
        x.trade_date,
    ) + opt_len(5, x.signature_pub_key_bytes@)
}

/// Canonical bytes of a mailbox payload.
pub open spec fn mailbox_bytes(x: MailboxStoragePayload) -> Seq<u8> {
    opt_len(1, x.prefixed_sealed_and_signed@) + opt_len(
        2,
        x.sender_pub_key_for_add_operation_bytes@,
    ) + opt_len(3, x.receiver_pub_key_for_remove_operation_bytes@)
}

/// Canonical bytes of a temporary proposal payload.
pub open spec fn temp_proposal_bytes(x: TempProposalPayload) -> Seq<u8> {
    opt_len(1, x.proposal@) + opt_len(2, x.owner_pub_key_encoded@)
}

/// Canonical bytes of the identity fields of an offer payload.
pub open spec fn offer_identity_bytes(o: OfferPayload) -> Seq<u8> {
    opt_len(1, o.id@) + opt_uint(2, o.date) + opt_node_address(3, o.owner_node_address) + opt_pub_key_ring(4, o.pub_key_ring) + opt_uint(5, direction_num(o.direction)) + opt_uint(6, o.price)
}

/// Canonical bytes of the terms fields of an offer payload.
pub open spec fn offer_terms_bytes(o: OfferPayload) -> Seq<u8> {
    opt_fix64(7, o.market_price_margin_bits) + opt_bool(8, o.use_market_based_price) + opt_uint(9, o.amount) + opt_uint(10, o.min_amount) + opt_len(11, o.base_currency_code@) + opt_len(12, o.counter_currency_code@)
}

/// Canonical bytes of the agents fields of an offer payload.
pub open spec fn offer_agents_bytes(o: OfferPayload) -> Seq<u8> {
    rep_node_address(13, o.arbitrator_node_addresses@) + rep_node_address(14, o.mediator_node_addresses@) + opt_len(15, o.payment_method_id@) + opt_len(16, o.maker_payment_account_id@) + opt_len(17, o.offer_fee_payment_tx_id@) + opt_len(18, o.country_code@)
}

/// Canonical bytes of the markets fields of an offer payload.
pub open spec fn offer_markets_bytes(o: OfferPayload) -> Seq<u8> {
    rep_len(19, o.accepted_country_codes@) + opt_len(20, o.bank_id@) + rep_len(21, o.accepted_bank_ids@) + opt_len(22, o.version_nr@)
}

/// Canonical bytes of the fees fields of an offer payload.
pub open spec fn offer_fees_bytes(o: OfferPayload) -> Seq<u8> {
    opt_uint(23, o.block_height_at_offer_creation) + opt_uint(24, o.tx_fee) + opt_uint(25, o.maker_fee) + opt_bool(26, o.is_currency_for_maker_fee_btc) + opt_uint(27, o.buyer_security_deposit)
}

/// Canonical bytes of the limits fields of an offer payload.
pub open spec fn offer_limits_bytes(o: OfferPayload) -> Seq<u8> {
    opt_uint(28, o.seller_security_deposit) + opt_uint(29, o.max_trade_limit) + opt_uint(30, o.max_trade_period) + rep_map_entry(37, o.extra_data@) + opt_uint(38, o.protocol_version as u64)
}

/// Canonical bytes of an offer payload.
pub open spec fn offer_payload_bytes(o: OfferPayload) -> Seq<u8> {
    offer_identity_bytes(o) + offer_terms_bytes(o) + offer_agents_bytes(o) + offer_markets_bytes(o)
        + offer_fees_bytes(o) + offer_limits_bytes(o)
}

/// Canonical bytes of a storage payload: the variant's field inside the
/// tagged union, always present.
pub open spec fn storage_payload_bytes(p: StoragePayload) -> Seq<u8> {
    match p {
        StoragePayload::Alert(x) => field_len(1, alert_bytes(x)),
        StoragePayload::Arbitrator(x) => field_len(2, arbitrator_bytes(x)),
        StoragePayload::Mediator(x) => field_len(3, mediator_bytes(x)),
        StoragePayload::Filter(x) => field_len(4, filter_bytes(x)),
        StoragePayload::TradeStatistics(x) => field_len(5, trade_statistics_bytes(x)),
        StoragePayload::MailboxStoragePayload(x) => field_len(6, mailbox_bytes(x)),
        StoragePayload::OfferPayload(x) => field_len(7, offer_payload_bytes(x)),
        StoragePayload::TempProposalPayload(x) => field_len(8, temp_proposal_bytes(x)),
        StoragePayload::RefundAgent(x) => field_len(9, refund_agent_bytes(x)),
    }
}

/// Canonical bytes of the hashed-and-signed pair of payload and sequence
/// number.
pub open spec fn data_and_seq_nr_bytes(d: DataAndSeqNrPair) -> Seq<u8> {
    (match d.payload {
        None => Seq::empty(),
        Some(p) => field_len(1, storage_payload_bytes(p)),
    }) + opt_uint(2, d.sequence_number as u64)
}

/// Appends a varint field, skipping the default value.
fn write_opt_uint(out: &mut Vec<u8>, num: u64, v: u64)
    requires
        1 <= num <= 1000,
    ensures
        final(out)@ == old(out)@ + opt_uint(num, v),
{
    if v != 0 {
        write_uint_field(out, num, v);
    } else {
        proof {
            assert(out@ + opt_uint(num, v) =~= out@);
        }
    }
}

/// Appends a byte-string field, skipping the empty value.
fn write_opt_len(out: &mut Vec<u8>, num: u64, b: &[u8])
    requires
        1 <= num <= 1000,
    ensures
        final(out)@ == old(out)@ + opt_len(num, b@),
{
    if b.len() != 0 {
        write_len_field(out, num, b);
    } else {
        proof {
            assert(out@ + opt_len(num, b@) =~= out@);
        }
    }
}

/// Appends a boolean field, skipping the false value.
fn write_opt_bool(out: &mut Vec<u8>, num: u64, v: bool)
    requires
        1 <= num <= 1000,
    ensures
        final(out)@ == old(out)@ + opt_bool(num, v),
{
    if v {
        write_uint_field(out, num, 1);
    } else {
        proof {
            assert(out@ + opt_bool(num, v) =~= out@);
        }
    }
}

/// Appends a fixed 64-bit field, skipping the default value.
fn write_opt_fix64(out: &mut Vec<u8>, num: u64, v: u64)
    requires
        1 <= num <= 1000,
    ensures
        final(out)@ == old(out)@ + opt_fix64(num, v),
{
    if v != 0 {
        write_fix64_field(out, num, v);
    } else {
        proof {
            assert(out@ + opt_fix64(num, v) =~= out@);
        }
    }
}

/// Encodes a node address.
pub fn encode_node_address(a: &NodeAddress) -> (r: Vec<u8>)
    ensures
        r@ == node_address_bytes(*a),
{
    let mut out: Vec<u8> = Vec::new();
    write_opt_len(&mut out, 1, a.host_name.as_slice());
    proof {
        assert(Seq::<u8>::empty() + opt_len(1, a.host_name@) =~= opt_len(1, a.host_name@));
    }
    write_opt_uint(&mut out, 2, a.port as u64);
    out
}

/// Encodes a public-key ring.
pub fn encode_pub_key_ring(r: &PubKeyRing) -> (res: Vec<u8>)
    ensures
        res@ == pub_key_ring_bytes(*r),
{
    let mut out: Vec<u8> = Vec::new();
    write_opt_len(&mut out, 1, r.signature_pub_key_bytes.as_slice());
    proof {
        assert(Seq::<u8>::empty() + opt_len(1, r.signature_pub_key_bytes@) =~= opt_len(
            1,
            r.signature_pub_key_bytes@,
        ));
    }
    write_opt_len(&mut out, 2, r.encryption_pub_key_bytes.as_slice());
    out
}

/// Appends an optional embedded node address.
fn write_opt_node_address(out: &mut Vec<u8>, num: u64, a: &Option<NodeAddress>)
    requires
        1 <= num <= 1000,
    ensures
        final(out)@ == old(out)@ + opt_node_address(num, *a),
{
    match a {
        None => {
            proof {
                assert(out@ + opt_node_address(num, *a) =~= out@);
            }
        },
        Some(x) => {
            let body = encode_node_address(x);
            write_len_field(out, num, body.as_slice());
        },
    }
}

/// Appends an optional embedded key ring.
fn write_opt_pub_key_ring(out: &mut Vec<u8>, num: u64, r: &Option<PubKeyRing>)
    requires
        1 <= num <= 1000,
    ensures
        final(out)@ == old(out)@ + opt_pub_key_ring(num, *r),
{
    match r {
        None => {
            proof {
                assert(out@ + opt_pub_key_ring(num, *r) =~= out@);
            }
        },
        Some(x) => {
            let body = encode_pub_key_ring(x);
            write_len_field(out, num, body.as_slice());
        },
    }
}

/// Appends a repeated embedded node address field.
fn write_rep_node_address(out: &mut Vec<u8>, num: u64, items: &Vec<NodeAddress>)
    requires
        1 <= num <= 1000,
    ensures
        final(out)@ == old(out)@ + rep_node_address(num, items@),
{
    let mut k: usize = 0;
    proof {
        assert(items@.skip(0) =~= items@);
    }
    while k < items.len()
        invariant
            k <= items@.len(),
            1 <= num <= 1000,
            out@ + rep_node_address(num, items@.skip(k as int)) == old(out)@ + rep_node_address(
                num,
                items@,
            ),
        decreases items@.len() - k,
    {
        let body = encode_node_address(&items[k]);
        write_len_field(out, num, body.as_slice());
        proof {
            let s = items@.skip(k as int);
            assert(s.drop_first() =~= items@.skip(k + 1));
            assert(out@ + rep_node_address(num, items@.skip(k + 1)) =~= old(out)@
                + rep_node_address(num, items@));
        }
        k = k + 1;
    }
    proof {
        assert(out@ + rep_node_address(num, items@.skip(items@.len() as int)) =~= out@);
    }
}

/// Appends a repeated byte-string field.
fn write_rep_len(out: &mut Vec<u8>, num: u64, items: &Vec<Vec<u8>>)
    requires
        1 <= num <= 1000,
    ensures
        final(out)@ == old(out)@ + rep_len(num, items@),
{
    let mut k: usize = 0;
    proof {
        assert(items@.skip(0) =~= items@);
    }
    while k < items.len()
        invariant
            k <= items@.len(),
            1 <= num <= 1000,
            out@ + rep_len(num, items@.skip(k as int)) == old(out)@ + rep_len(num, items@),
        decreases items@.len() - k,
    {
        write_len_field(out, num, items[k].as_slice());
        proof {
            let s = items@.skip(k as int);
            assert(s.drop_first() =~= items@.skip(k + 1));
            assert(out@ + rep_len(num, items@.skip(k + 1)) =~= old(out)@ + rep_len(num, items@));
        }
        k = k + 1;
    }
    proof {
        assert(out@ + rep_len(num, items@.skip(items@.len() as int)) =~= out@);
    }
}

/// Encodes one map entry; both key and value are always present.
fn encode_map_entry(key: &Vec<u8>, value: &Vec<u8>) -> (r: Vec<u8>)
    ensures
        r@ == field_len(1, key@) + field_len(2, value@),
{
    let mut out: Vec<u8> = Vec::new();
    write_len_field(&mut out, 1, key.as_slice());
    proof {
        assert(Seq::<u8>::empty() + field_len(1, key@) =~= field_len(1, key@));
    }
    write_len_field(&mut out, 2, value.as_slice());
    out
}

/// Appends a repeated map-entry field.
fn write_rep_map_entry(out: &mut Vec<u8>, num: u64, items: &Vec<(Vec<u8>, Vec<u8>)>)
    requires
        1 <= num <= 1000,
    ensures
        final(out)@ == old(out)@ + rep_map_entry(num, items@),
{
    let mut k: usize = 0;
    proof {
        assert(items@.skip(0) =~= items@);
    }
    while k < items.len()
        invariant
            k <= items@.len(),
            1 <= num <= 1000,
            out@ + rep_map_entry(num, items@.skip(k as int)) == old(out)@ + rep_map_entry(
                num,
                items@,
            ),
        decreases items@.len() - k,
    {
        let body = encode_map_entry(&items[k].0, &items[k].1);
        write_len_field(out, num, body.as_slice());
        proof {
            let s = items@.skip(k as int);
            assert(s.drop_first() =~= items@.skip(k + 1));
            assert(out@ + rep_map_entry(num, items@.skip(k + 1)) =~= old(out)@ + rep_map_entry(
                num,
                items@,
            ));
        }
        k = k + 1;
    }
    proof {
        assert(out@ + rep_map_entry(num, items@.skip(items@.len() as int)) =~= out@);
    }
}

/// Encodes an alert.
pub fn encode_alert(x: &Alert) -> (r: Vec<u8>)
    ensures
        r@ == alert_bytes(*x),
{
    let mut out: Vec<u8> = Vec::new();
    write_opt_len(&mut out, 1, x.message.as_slice());
    proof {
        assert(Seq::<u8>::empty() + opt_len(1, x.message@) =~= opt_len(1, x.message@));
    }
    write_opt_bool(&mut out, 2, x.requires_update);
    write_opt_len(&mut out, 3, x.min_version.as_slice());
    write_opt_len(&mut out, 4, x.owner_pub_key_bytes.as_slice());
    write_opt_len(&mut out, 5, x.signature_as_base64.as_slice());
    out
}

/// Encodes an arbitrator record.
pub fn encode_arbitrator(x: &Arbitrator) -> (r: Vec<u8>)
    ensures
        r@ == arbitrator_bytes(*x),
{
    let mut out: Vec<u8> = Vec::new();
    write_opt_node_address(&mut out, 1, &x.node_address);
    proof {
        assert(Seq::<u8>::empty() + opt_node_address(1, x.node_address) =~= opt_node_address(
            1,
            x.node_address,
        ));
    }
    write_opt_pub_key_ring(&mut out, 2, &x.pub_key_ring);
    write_opt_uint(&mut out, 3, x.registration_date);
    out
}

/// Encodes a mediator record.
pub fn encode_mediator(x: &Mediator) -> (r: Vec<u8>)
    ensures
        r@ == mediator_bytes(*x),
{
    let mut out: Vec<u8> = Vec::new();
    write_opt_node_address(&mut out, 1, &x.node_address);
    proof {
        assert(Seq::<u8>::empty() + opt_node_address(1, x.node_address) =~= opt_node_address(
            1,
            x.node_address,
        ));
    }
    write_opt_pub_key_ring(&mut out, 2, &x.pub_key_ring);
    write_opt_uint(&mut out, 3, x.registration_date);
    out
}

/// Encodes a refund-agent record.
pub fn encode_refund_agent(x: &RefundAgent) -> (r: Vec<u8>)
    ensures
        r@ == refund_agent_bytes(*x),
{
    let mut out: Vec<u8> = Vec::new();
    write_opt_node_address(&mut out, 1, &x.node_address);
    proof {
        assert(Seq::<u8>::empty() + opt_node_address(1, x.node_address) =~= opt_node_address(
            1,
            x.node_address,
        ));
    }
    write_opt_pub_key_ring(&mut out, 2, &x.pub_key_ring);
    write_opt_uint(&mut out, 3, x.registration_date);
    out
}

/// Encodes a filter.
pub fn encode_filter(x: &Filter) -> (r: Vec<u8>)
    ensures
        r@ == filter_bytes(*x),
{
    let mut out: Vec<u8> = Vec::new();
    write_opt_len(&mut out, 1, x.signature_as_base64.as_slice());
    proof {
        assert(Seq::<u8>::empty() + opt_len(1, x.signature_as_base64@) =~= opt_len(
            1,
            x.signature_as_base64@,
        ));
    }
    write_opt_len(&mut out, 2, x.owner_pub_key_bytes.as_slice());
    write_rep_len(&mut out, 3, &x.banned_offer_ids);
    out
}

/// Encodes a legacy trade-statistics record.
pub fn encode_trade_statistics(x: &TradeStatistics) -> (r: Vec<u8>)
    ensures
        r@ == trade_statistics_bytes(*x),
{
    let mut out: Vec<u8> = Vec::new();
    write_opt_len(&mut out, 1, x.currency.as_slice());
    proof {
        assert(Seq::<u8>::empty() + opt_len(1, x.currency@) =~= opt_len(1, x.currency@));
    }
    write_opt_uint(&mut out, 2, x.trade_price);
    write_opt_uint(&mut out, 3, x.trade_amount);
    write_opt_uint(&mut out, 4, x.trade_date);
    write_opt_len(&mut out, 5, x.signature_pub_key_bytes.as_slice());
    out
}

/// Encodes a mailbox payload.
pub fn encode_mailbox(x: &MailboxStoragePayload) -> (r: Vec<u8>)
    ensures
        r@ == mailbox_bytes(*x),
{
    let mut out: Vec<u8> = Vec::new();
    write_opt_len(&mut out, 1, x.prefixed_sealed_and_signed.as_slice());
    proof {
        assert(Seq::<u8>::empty() + opt_len(1, x.prefixed_sealed_and_signed@) =~= opt_len(
            1,
            x.prefixed_sealed_and_signed@,
        ));
    }
    write_opt_len(&mut out, 2, x.sender_pub_key_for_add_operation_bytes.as_slice());
    write_opt_len(&mut out, 3, x.receiver_pub_key_for_remove_operation_bytes.as_slice());
    out
}

/// Encodes a temporary proposal payload.
pub fn encode_temp_proposal(x: &TempProposalPayload) -> (r: Vec<u8>)
    ensures
        r@ == temp_proposal_bytes(*x),
{
    let mut out: Vec<u8> = Vec::new();
    write_opt_len(&mut out, 1, x.proposal.as_slice());
    proof {
        assert(Seq::<u8>::empty() + opt_len(1, x.proposal@) =~= opt_len(1, x.proposal@));
    }
    write_opt_len(&mut out, 2, x.owner_pub_key_encoded.as_slice());
    out
}

/// Encodes the identity fields of an offer payload.
fn encode_offer_identity(o: &OfferPayload) -> (r: Vec<u8>)
    ensures
        r@ == offer_identity_bytes(*o),
{
    let mut out: Vec<u8> = Vec::new();
    write_opt_len(&mut out, 1, o.id.as_slice());
    proof {
        assert(Seq::<u8>::empty() + opt_len(1, o.id@) =~= opt_len(1, o.id@));
    }
    write_opt_uint(&mut out, 2, o.date);
    write_opt_node_address(&mut out, 3, &o.owner_node_address);
    write_opt_pub_key_ring(&mut out, 4, &o.pub_key_ring);
    write_opt_uint(&mut out, 5, o.direction.num());
    write_opt_uint(&mut out, 6, o.price);
    out
}

/// Encodes the terms fields of an offer payload.
fn encode_offer_terms(o: &OfferPayload) -> (r: Vec<u8>)
    ensures
        r@ == offer_terms_bytes(*o),
{
    let mut out: Vec<u8> = Vec::new();
    write_opt_fix64(&mut out, 7, o.market_price_margin_bits);
    proof {
        assert(Seq::<u8>::empty() + opt_fix64(7, o.market_price_margin_bits) =~= opt_fix64(7, o.market_price_margin_bits));
    }
    write_opt_bool(&mut out, 8, o.use_market_based_price);
    write_opt_uint(&mut out, 9, o.amount);
    write_opt_uint(&mut out, 10, o.min_amount);
    write_opt_len(&mut out, 11, o.base_currency_code.as_slice());
    write_opt_len(&mut out, 12, o.counter_currency_code.as_slice());
    out
}

/// Encodes the agents fields of an offer payload.
fn encode_offer_agents(o: &OfferPayload) -> (r: Vec<u8>)
    ensures
        r@ == offer_agents_bytes(*o),
{
    let mut out: Vec<u8> = Vec::new();
    write_rep_node_address(&mut out, 13, &o.arbitrator_node_addresses);
    proof {
        assert(Seq::<u8>::empty() + rep_node_address(13, o.arbitrator_node_addresses@) =~= rep_node_address(13, o.arbitrator_node_addresses@));
    }
    write_rep_node_address(&mut out, 14, &o.mediator_node_addresses);
    write_opt_len(&mut out, 15, o.payment_method_id.as_slice());
    write_opt_len(&mut out, 16, o.maker_payment_account_id.as_slice());
    write_opt_len(&mut out, 17, o.offer_fee_payment_tx_id.as_slice());
    write_opt_len(&mut out, 18, o.country_code.as_slice());
    out
}

/// Encodes the markets fields of an offer payload.
fn encode_offer_markets(o: &OfferPayload) -> (r: Vec<u8>)
    ensures
        r@ == offer_markets_bytes(*o),
{
    let mut out: Vec<u8> = Vec::new();
    write_rep_len(&mut out, 19, &o.accepted_country_codes);
    proof {
        assert(Seq::<u8>::empty() + rep_len(19, o.accepted_country_codes@) =~= rep_len(19, o.accepted_country_codes@));
    }
    write_opt_len(&mut out, 20, o.bank_id.as_slice());
    write_rep_len(&mut out, 21, &o.accepted_bank_ids);
    write_opt_len(&mut out, 22, o.version_nr.as_slice());
    out
}

/// Encodes the fees fields of an offer payload.
fn encode_offer_fees(o: &OfferPayload) -> (r: Vec<u8>)
    ensures
        r@ == offer_fees_bytes(*o),
{
    let mut out: Vec<u8> = Vec::new();
    write_opt_uint(&mut out, 23, o.block_height_at_offer_creation);
    proof {
        assert(Seq::<u8>::empty() + opt_uint(23, o.block_height_at_offer_creation) =~= opt_uint(23, o.block_height_at_offer_creation));
    }
    write_opt_uint(&mut out, 24, o.tx_fee);
    write_opt_uint(&mut out, 25, o.maker_fee);
    write_opt_bool(&mut out, 26, o.is_currency_for_maker_fee_btc);
    write_opt_uint(&mut out, 27, o.buyer_security_deposit);
    out
}

/// Encodes the limits fields of an offer payload.
fn encode_offer_limits(o: &OfferPayload) -> (r: Vec<u8>)
    ensures
        r@ == offer_limits_bytes(*o),
{
    let mut out: Vec<u8> = Vec::new();
    write_opt_uint(&mut out, 28, o.seller_security_deposit);
    proof {
        assert(Seq::<u8>::empty() + opt_uint(28, o.seller_security_deposit) =~= opt_uint(28, o.seller_security_deposit));
    }
    write_opt_uint(&mut out, 29, o.max_trade_limit);
    write_opt_uint(&mut out, 30, o.max_trade_period);
    write_rep_map_entry(&mut out, 37, &o.extra_data);
    write_opt_uint(&mut out, 38, o.protocol_version as u64);
    out
}

/// Encodes an offer payload.
pub fn encode_offer_payload(o: &OfferPayload) -> (r: Vec<u8>)
    ensures
        r@ == offer_payload_bytes(*o),
{
    let mut out = encode_offer_identity(o);
    let mut part = encode_offer_terms(o);
    out.append(&mut part);
    let mut part = encode_offer_agents(o);
    out.append(&mut part);
    let mut part = encode_offer_markets(o);
    out.append(&mut part);
    let mut part = encode_offer_fees(o);
    out.append(&mut part);
    let mut part = encode_offer_limits(o);
    out.append(&mut part);
    out
}

/// Encodes a storage payload: the canonical encoding that its content hash
/// is computed over.
pub fn encode_storage_payload(p: &StoragePayload) -> (r: Vec<u8>)
    ensures
        r@ == storage_payload_bytes(*p),
{
    let mut out: Vec<u8> = Vec::new();
    let body: Vec<u8> = match p {
        StoragePayload::Alert(x) => encode_alert(x),
        StoragePayload::Arbitrator(x) => encode_arbitrator(x),
        StoragePayload::Mediator(x) => encode_mediator(x),
        StoragePayload::Filter(x) => encode_filter(x),
        StoragePayload::TradeStatistics(x) => encode_trade_statistics(x),
        StoragePayload::MailboxStoragePayload(x) => encode_mailbox(x),
        StoragePayload::OfferPayload(x) => encode_offer_payload(x),
        StoragePayload::TempProposalPayload(x) => encode_temp_proposal(x),
        StoragePayload::RefundAgent(x) => encode_refund_agent(x),
    };
    let num: u64 = match p {
        StoragePayload::Alert(_) => 1,
        StoragePayload::Arbitrator(_) => 2,
        StoragePayload::Mediator(_) => 3,
        StoragePayload::Filter(_) => 4,
        StoragePayload::TradeStatistics(_) => 5,
        StoragePayload::MailboxStoragePayload(_) => 6,
        StoragePayload::OfferPayload(_) => 7,
        StoragePayload::TempProposalPayload(_) => 8,
        StoragePayload::RefundAgent(_) => 9,
    };
    write_len_field(&mut out, num, body.as_slice());
    proof {
        assert(Seq::<u8>::empty() + field_len(num as u64, body@) =~= field_len(num as u64, body@));
    }
    out
}

/// Encodes a payload together with a sequence number, as hashed and signed
/// by the owner.
pub fn encode_payload_with_seq(p: &StoragePayload, sequence_number: u32) -> (r: Vec<u8>)
    ensures
        r@ == data_and_seq_nr_bytes(
            DataAndSeqNrPair { payload: Some(*p), sequence_number },
        ),
{
    let mut out: Vec<u8> = Vec::new();
    let body = encode_storage_payload(p);
    write_len_field(&mut out, 1, body.as_slice());
    proof {
        assert(Seq::<u8>::empty() + field_len(1, storage_payload_bytes(*p)) =~= field_len(
            1,
            storage_payload_bytes(*p),
        ));
    }
    write_opt_uint(&mut out, 2, sequence_number as u64);
    out
}

impl StoragePayload {
    /// Writes the canonical encoding of this payload into `buf`; never
    /// fails.
    pub fn encode(&self, buf: &mut Vec<u8>) -> (r: Result<(), EncodeError>)
        ensures
            r is Ok,
            final(buf)@ == old(buf)@ + storage_payload_bytes(*self),
    {
        let mut body = encode_storage_payload(self);
        buf.append(&mut body);
        Ok(())
    }

    /// Length in bytes of the canonical encoding.
    pub fn encoded_len(&self) -> (r: usize)
        ensures
            r == storage_payload_bytes(*self).len(),
    {
        let body = encode_storage_payload(self);
        body.len()
    }
}

/// Encodes the pair of payload and sequence number; its hash is what the
/// owner signs.
pub fn encode_data_and_seq_nr(d: &DataAndSeqNrPair) -> (r: Vec<u8>)
    ensures
        r@ == data_and_seq_nr_bytes(*d),
{
    let mut out: Vec<u8> = Vec::new();
    match &d.payload {
        None => {
            proof {
                assert(out@ =~= Seq::<u8>::empty() + Seq::<u8>::empty());
            }
        },
        Some(p) => {
            let body = encode_storage_payload(p);
            write_len_field(&mut out, 1, body.as_slice());
            proof {
                assert(Seq::<u8>::empty() + field_len(1, storage_payload_bytes(*p)) =~= field_len(
                    1,
                    storage_payload_bytes(*p),
                ));
            }
        },
    }
    write_opt_uint(&mut out, 2, d.sequence_number as u64);
    out
}

/// Concatenation of byte strings is associative.
pub proof fn lemma_cat_assoc(a: Seq<u8>, b: Seq<u8>, c: Seq<u8>)
    ensures
        (a + b) + c == a + (b + c),
{
    assert((a + b) + c =~= a + (b + c));
}

/// The canonical chunk that field `k` of an offer payload contributes;
/// empty for the field numbers the schema does not use.
pub open spec fn offer_chunk(o: OfferPayload, k: int) -> Seq<u8> {
    if k == 1 { opt_len(1, o.id@) }
    else if k == 2 { opt_uint(2, o.date) }
    else if k == 3 { opt_node_address(3, o.owner_node_address) }
    else if k == 4 { opt_pub_key_ring(4, o.pub_key_ring) }
    else if k == 5 { opt_uint(5, direction_num(o.direction)) }
    else if k == 6 { opt_uint(6, o.price) }
    else if k == 7 { opt_fix64(7, o.market_price_margin_bits) }
    else if k == 8 { opt_bool(8, o.use_market_based_price) }
    else if k == 9 { opt_uint(9, o.amount) }
    else if k == 10 { opt_uint(10, o.min_amount) }
    else if k == 11 { opt_len(11, o.base_currency_code@) }
    else if k == 12 { opt_len(12, o.counter_currency_code@) }
    else if k == 13 { rep_node_address(13, o.arbitrator_node_addresses@) }
    else if k == 14 { rep_node_address(14, o.mediator_node_addresses@) }
    else if k == 15 { opt_len(15, o.payment_method_id@) }
    else if k == 16 { opt_len(16, o.maker_payment_account_id@) }
    else if k == 17 { opt_len(17, o.offer_fee_payment_tx_id@) }
    else if k == 18 { opt_len(18, o.country_code@) }
    else if k == 19 { rep_len(19, o.accepted_country_codes@) }
    else if k == 20 { opt_len(20, o.bank_id@) }
    else if k == 21 { rep_len(21, o.accepted_bank_ids@) }
    else if k == 22 { opt_len(22, o.version_nr@) }
    else if k == 23 { opt_uint(23, o.block_height_at_offer_creation) }
    else if k == 24 { opt_uint(24, o.tx_fee) }
    else if k == 25 { opt_uint(25, o.maker_fee) }
    else if k == 26 { opt_bool(26, o.is_currency_for_maker_fee_btc) }
    else if k == 27 { opt_uint(27, o.buyer_security_deposit) }
    else if k == 28 { opt_uint(28, o.seller_security_deposit) }
    else if k == 29 { opt_uint(29, o.max_trade_limit) }
    else if k == 30 { opt_uint(30, o.max_trade_period) }
    else if k == 37 { rep_map_entry(37, o.extra_data@) }
    else if k == 38 { opt_uint(38, o.protocol_version as u64) }
    else { Seq::empty() }
}

/// The wire tag that opens field `k` of an offer payload when present.
pub open spec fn offer_tag(k: int) -> u64 {
    if k == 7 {
        (8 * k + 1) as u64
    } else if k == 1 || k == 3 || k == 4 || k == 11 || k == 12 || (13 <= k && k <= 22) || k == 37 {
        (8 * k + 2) as u64
    } else {
        (8 * k) as u64
    }
}

/// The canonical bytes of an offer payload from field `k` on.
pub open spec fn offer_fields_from(o: OfferPayload, k: int) -> Seq<u8>
    decreases 39 - k,
{
    if k < 1 || k >= 39 {
        Seq::empty()
    } else {
        offer_chunk(o, k) + offer_fields_from(o, k + 1)
    }
}

/// A nonempty offer field chunk opens with the field's wire tag.
pub proof fn lemma_offer_chunk_head(o: OfferPayload, k: int)
    requires
        1 <= k < 39,
        offer_chunk(o, k).len() != 0,
    ensures
        exists|hb: Seq<u8>| offer_chunk(o, k) == #[trigger] (varint_bytes(offer_tag(k)) + hb),
{
    if k == 1 { assert(offer_chunk(o, k) == varint_bytes(offer_tag(k)) + len_delim(o.id@)); }
    else if k == 2 { assert(offer_chunk(o, k) == varint_bytes(offer_tag(k)) + varint_bytes(o.date)); }
    else if k == 3 { assert(offer_chunk(o, k) == varint_bytes(offer_tag(k)) + len_delim(node_address_bytes(o.owner_node_address.unwrap()))); }
    else if k == 4 { assert(offer_chunk(o, k) == varint_bytes(offer_tag(k)) + len_delim(pub_key_ring_bytes(o.pub_key_ring.unwrap()))); }
    else if k == 5 { assert(offer_chunk(o, k) == varint_bytes(offer_tag(k)) + varint_bytes(direction_num(o.direction))); }
    else if k == 6 { assert(offer_chunk(o, k) == varint_bytes(offer_tag(k)) + varint_bytes(o.price)); }
    else if k == 7 { assert(offer_chunk(o, k) == varint_bytes(offer_tag(k)) + le64_bytes(o.market_price_margin_bits)); }
    else if k == 8 { assert(offer_chunk(o, k) == varint_bytes(offer_tag(k)) + varint_bytes(1)); }
    else if k == 9 { assert(offer_chunk(o, k) == varint_bytes(offer_tag(k)) + varint_bytes(o.amount)); }
    else if k == 10 { assert(offer_chunk(o, k) == varint_bytes(offer_tag(k)) + varint_bytes(o.min_amount)); }
    else if k == 11 { assert(offer_chunk(o, k) == varint_bytes(offer_tag(k)) + len_delim(o.base_currency_code@)); }
    else if k == 12 { assert(offer_chunk(o, k) == varint_bytes(offer_tag(k)) + len_delim(o.counter_currency_code@)); }
    else if k == 13 {
        let s = o.arbitrator_node_addresses@;
        lemma_cat_assoc(varint_bytes(offer_tag(k)), len_delim(node_address_bytes(s[0])), rep_node_address(13, s.drop_first()));
        assert(offer_chunk(o, k) == varint_bytes(offer_tag(k)) + (len_delim(node_address_bytes(s[0])) + rep_node_address(13, s.drop_first())));
    }
    else if k == 14 {
        let s = o.mediator_node_addresses@;
        lemma_cat_assoc(varint_bytes(offer_tag(k)), len_delim(node_address_bytes(s[0])), rep_node_address(14, s.drop_first()));
        assert(offer_chunk(o, k) == varint_bytes(offer_tag(k)) + (len_delim(node_address_bytes(s[0])) + rep_node_address(14, s.drop_first())));
    }
    else if k == 15 { assert(offer_chunk(o, k) == varint_bytes(offer_tag(k)) + len_delim(o.payment_method_id@)); }
    else if k == 16 { assert(offer_chunk(o, k) == varint_bytes(offer_tag(k)) + len_delim(o.maker_payment_account_id@)); }
    else if k == 17 { assert(offer_chunk(o, k) == varint_bytes(offer_tag(k)) + len_delim(o.offer_fee_payment_tx_id@)); }
    else if k == 18 { assert(offer_chunk(o, k) == varint_bytes(offer_tag(k)) + len_delim(o.country_code@)); }
    else if k == 19 {
        let s = o.accepted_country_codes@;
        lemma_cat_assoc(varint_bytes(offer_tag(k)), len_delim(s[0]@), rep_len(19, s.drop_first()));
        assert(offer_chunk(o, k) == varint_bytes(offer_tag(k)) + (len_delim(s[0]@) + rep_len(19, s.drop_first())));
    }
    else if k == 20 { assert(offer_chunk(o, k) == varint_bytes(offer_tag(k)) + len_delim(o.bank_id@)); }
    else if k == 21 {
        let s = o.accepted_bank_ids@;
        lemma_cat_assoc(varint_bytes(offer_tag(k)), len_delim(s[0]@), rep_len(21, s.drop_first()));
        assert(offer_chunk(o, k) == varint_bytes(offer_tag(k)) + (len_delim(s[0]@) + rep_len(21, s.drop_first())));
    }
    else if k == 22 { assert(offer_chunk(o, k) == varint_bytes(offer_tag(k)) + len_delim(o.version_nr@)); }
    else if k == 23 { assert(offer_chunk(o, k) == varint_bytes(offer_tag(k)) + varint_bytes(o.block_height_at_offer_creation)); }
    else if k == 24 { assert(offer_chunk(o, k) == varint_bytes(offer_tag(k)) + varint_bytes(o.tx_fee)); }
    else if k == 25 { assert(offer_chunk(o, k) == varint_bytes(offer_tag(k)) + varint_bytes(o.maker_fee)); }
    else if k == 26 { assert(offer_chunk(o, k) == varint_bytes(offer_tag(k)) + varint_bytes(1)); }
    else if k == 27 { assert(offer_chunk(o, k) == varint_bytes(offer_tag(k)) + varint_bytes(o.buyer_security_deposit)); }
    else if k == 28 { assert(offer_chunk(o, k) == varint_bytes(offer_tag(k)) + varint_bytes(o.seller_security_deposit)); }
    else if k == 29 { assert(offer_chunk(o, k) == varint_bytes(offer_tag(k)) + varint_bytes(o.max_trade_limit)); }
    else if k == 30 { assert(offer_chunk(o, k) == varint_bytes(offer_tag(k)) + varint_bytes(o.max_trade_period)); }
    else if k == 37 {
        let s = o.extra_data@;
        lemma_cat_assoc(varint_bytes(offer_tag(k)), len_delim(map_entry_bytes(s[0])), rep_map_entry(37, s.drop_first()));
        assert(offer_chunk(o, k) == varint_bytes(offer_tag(k)) + (len_delim(map_entry_bytes(s[0])) + rep_map_entry(37, s.drop_first())));
    }
    else if k == 38 { assert(offer_chunk(o, k) == varint_bytes(offer_tag(k)) + varint_bytes(o.protocol_version as u64)); }
    else { assert(offer_chunk(o, k).len() == 0); }
}

/// Any suffix of the canonical offer bytes is empty or opens with the wire
/// tag of a field no earlier than `k`.
pub proof fn lemma_offer_fields_shape(o: OfferPayload, k: int)
    requires
        1 <= k <= 39,
    ensures
        offer_fields_from(o, k).len() == 0 || exists|t: u64, rest: Seq<u8>|
            offer_fields_from(o, k) == #[trigger] (varint_bytes(t) + rest) && 8 * k <= t,
    decreases 39 - k,
{
    if k == 39 {
    } else if offer_chunk(o, k).len() == 0 {
        lemma_offer_fields_shape(o, k + 1);
        assert(offer_fields_from(o, k) =~= offer_fields_from(o, k + 1));
        if offer_fields_from(o, k + 1).len() != 0 {
            let (t, rest) = choose|t: u64, rest: Seq<u8>|
                offer_fields_from(o, k + 1) == #[trigger] (varint_bytes(t) + rest) && 8 * (k + 1)
                    <= t;
            assert(offer_fields_from(o, k) == varint_bytes(t) + rest && 8 * k <= t);
        }
    } else {
        lemma_offer_chunk_head(o, k);
        let hb = choose|hb: Seq<u8>|
            offer_chunk(o, k) == #[trigger] (varint_bytes(offer_tag(k)) + hb);
        lemma_cat_assoc(varint_bytes(offer_tag(k)), hb, offer_fields_from(o, k + 1));
        assert(offer_fields_from(o, k) == varint_bytes(offer_tag(k)) + (hb + offer_fields_from(
            o,
            k + 1,
        )));
        assert(8 * k <= offer_tag(k));
    }
}

/// When field `k` is absent, the suffix from `k` is the suffix from `k+1`,
/// which opens with a later field's tag if it is not empty.
pub proof fn lemma_offer_field_absent(data: Seq<u8>, i: int, o: OfferPayload, k: int)
    requires
        0 <= i <= data.len(),
        1 <= k < 39,
        data.subrange(i, data.len() as int) == offer_fields_from(o, k),
        offer_chunk(o, k).len() == 0,
    ensures
        data.subrange(i, data.len() as int) == offer_fields_from(o, k + 1),
        data.subrange(i, data.len() as int).len() != 0 ==> exists|t: u64, rest: Seq<u8>|
            data.subrange(i, data.len() as int) == #[trigger] (varint_bytes(t) + rest) && 8 * (k
                + 1) <= t,
{
    assert(offer_fields_from(o, k) =~= offer_fields_from(o, k + 1));
    lemma_offer_fields_shape(o, k + 1);
}

/// When field `k` is present, the suffix from `k` splits into the field's
/// chunk and the suffix from `k+1`.
pub proof fn lemma_offer_field_present(data: Seq<u8>, i: int, o: OfferPayload, k: int)
    requires
        0 <= i <= data.len(),
        1 <= k < 39,
        data.subrange(i, data.len() as int) == offer_fields_from(o, k),
    ensures
        data.subrange(i, data.len() as int) == offer_chunk(o, k) + offer_fields_from(o, k + 1),
        offer_chunk(o, k).len() <= data.len() - i,
        data.subrange(i + offer_chunk(o, k).len(), data.len() as int) == offer_fields_from(
            o,
            k + 1,
        ),
{
    let c = offer_chunk(o, k);
    let rest = offer_fields_from(o, k + 1);
    assert(data.subrange(i + c.len(), data.len() as int) =~= (c + rest).skip(c.len() as int));
    assert((c + rest).skip(c.len() as int) =~= rest);
}

proof fn lemma_offer_cat_limits(o: OfferPayload)
    ensures
        offer_fields_from(o, 28) == offer_limits_bytes(o),
{
    assert(offer_fields_from(o, 39) == Seq::<u8>::empty());
    assert(offer_fields_from(o, 38) == offer_chunk(o, 38) + offer_fields_from(o, 39));
    assert(offer_fields_from(o, 37) == offer_chunk(o, 37) + offer_fields_from(o, 38));
    assert(offer_fields_from(o, 36) == offer_chunk(o, 36) + offer_fields_from(o, 37));
    assert(offer_fields_from(o, 35) == offer_chunk(o, 35) + offer_fields_from(o, 36));
    assert(offer_fields_from(o, 34) == offer_chunk(o, 34) + offer_fields_from(o, 35));
    assert(offer_fields_from(o, 33) == offer_chunk(o, 33) + offer_fields_from(o, 34));
    assert(offer_fields_from(o, 32) == offer_chunk(o, 32) + offer_fields_from(o, 33));
    assert(offer_fields_from(o, 31) == offer_chunk(o, 31) + offer_fields_from(o, 32));
    assert(offer_fields_from(o, 30) == offer_chunk(o, 30) + offer_fields_from(o, 31));
    assert(offer_fields_from(o, 29) == offer_chunk(o, 29) + offer_fields_from(o, 30));
    assert(offer_fields_from(o, 28) == offer_chunk(o, 28) + offer_fields_from(o, 29));
    assert(offer_fields_from(o, 31) =~= offer_fields_from(o, 37));
    assert(offer_fields_from(o, 28) =~= offer_limits_bytes(o));
}

proof fn lemma_offer_cat_fees(o: OfferPayload)
    ensures
        offer_fields_from(o, 23) == offer_fees_bytes(o) + offer_fields_from(o, 28),
{
    assert(offer_fields_from(o, 27) == offer_chunk(o, 27) + offer_fields_from(o, 28));
    assert(offer_fields_from(o, 26) == offer_chunk(o, 26) + offer_fields_from(o, 27));
    assert(offer_fields_from(o, 25) == offer_chunk(o, 25) + offer_fields_from(o, 26));
    assert(offer_fields_from(o, 24) == offer_chunk(o, 24) + offer_fields_from(o, 25));
    assert(offer_fields_from(o, 23) == offer_chunk(o, 23) + offer_fields_from(o, 24));
    assert(offer_fields_from(o, 23) =~= offer_fees_bytes(o) + offer_fields_from(o, 28));
}

proof fn lemma_offer_cat_markets(o: OfferPayload)
    ensures
        offer_fields_from(o, 19) == offer_markets_bytes(o) + offer_fields_from(o, 23),
{
    assert(offer_fields_from(o, 22) == offer_chunk(o, 22) + offer_fields_from(o, 23));
    assert(offer_fields_from(o, 21) == offer_chunk(o, 21) + offer_fields_from(o, 22));
    assert(offer_fields_from(o, 20) == offer_chunk(o, 20) + offer_fields_from(o, 21));
    assert(offer_fields_from(o, 19) == offer_chunk(o, 19) + offer_fields_from(o, 20));
    assert(offer_fields_from(o, 19) =~= offer_markets_bytes(o) + offer_fields_from(o, 23));
}

proof fn lemma_offer_cat_agents(o: OfferPayload)
    ensures
        offer_fields_from(o, 13) == offer_agents_bytes(o) + offer_fields_from(o, 19),
{
    assert(offer_fields_from(o, 18) == offer_chunk(o, 18) + offer_fields_from(o, 19));
    assert(offer_fields_from(o, 17) == offer_chunk(o, 17) + offer_fields_from(o, 18));
    assert(offer_fields_from(o, 16) == offer_chunk(o, 16) + offer_fields_from(o, 17));
    assert(offer_fields_from(o, 15) == offer_chunk(o, 15) + offer_fields_from(o, 16));
    assert(offer_fields_from(o, 14) == offer_chunk(o, 14) + offer_fields_from(o, 15));
    assert(offer_fields_from(o, 13) == offer_chunk(o, 13) + offer_fields_from(o, 14));
    assert(offer_fields_from(o, 13) =~= offer_agents_bytes(o) + offer_fields_from(o, 19));
}

proof fn lemma_offer_cat_terms(o: OfferPayload)
    ensures
        offer_fields_from(o, 7) == offer_terms_bytes(o) + offer_fields_from(o, 13),
{
    assert(offer_fields_from(o, 12) == offer_chunk(o, 12) + offer_fields_from(o, 13));
    assert(offer_fields_from(o, 11) == offer_chunk(o, 11) + offer_fields_from(o, 12));
    assert(offer_fields_from(o, 10) == offer_chunk(o, 10) + offer_fields_from(o, 11));
    assert(offer_fields_from(o, 9) == offer_chunk(o, 9) + offer_fields_from(o, 10));
    assert(offer_fields_from(o, 8) == offer_chunk(o, 8) + offer_fields_from(o, 9));
    assert(offer_fields_from(o, 7) == offer_chunk(o, 7) + offer_fields_from(o, 8));
    assert(offer_fields_from(o, 7) =~= offer_terms_bytes(o) + offer_fields_from(o, 13));
}

proof fn lemma_offer_cat_identity(o: OfferPayload)
    ensures
        offer_fields_from(o, 1) == offer_identity_bytes(o) + offer_fields_from(o, 7),
{
    assert(offer_fields_from(o, 6) == offer_chunk(o, 6) + offer_fields_from(o, 7));
    assert(offer_fields_from(o, 5) == offer_chunk(o, 5) + offer_fields_from(o, 6));
    assert(offer_fields_from(o, 4) == offer_chunk(o, 4) + offer_fields_from(o, 5));
    assert(offer_fields_from(o, 3) == offer_chunk(o, 3) + offer_fields_from(o, 4));
    assert(offer_fields_from(o, 2) == offer_chunk(o, 2) + offer_fields_from(o, 3));
    assert(offer_fields_from(o, 1) == offer_chunk(o, 1) + offer_fields_from(o, 2));
    assert(offer_fields_from(o, 1) =~= offer_identity_bytes(o) + offer_fields_from(o, 7));
}

/// The chunks of all offer fields in order are the canonical offer bytes.
pub proof fn lemma_offer_fields_cat(o: OfferPayload)
    ensures
        offer_fields_from(o, 1) == offer_payload_bytes(o),
{
    lemma_offer_cat_limits(o);
    lemma_offer_cat_fees(o);
    lemma_offer_cat_markets(o);
    lemma_offer_cat_agents(o);
    lemma_offer_cat_terms(o);
    lemma_offer_cat_identity(o);
    let a = offer_identity_bytes(o);
    let b = offer_terms_bytes(o);
    let c = offer_agents_bytes(o);
    let d = offer_markets_bytes(o);
    let e = offer_fees_bytes(o);
    let f = offer_limits_bytes(o);
    lemma_cat_assoc((((a + b) + c) + d), e, f);
    lemma_cat_assoc(((a + b) + c), d, e + f);
    lemma_cat_assoc((a + b), c, d + (e + f));
    lemma_cat_assoc(a, b, c + (d + (e + f)));
    assert(offer_payload_bytes(o) == a + (b + (c + (d + (e + f)))));
}

/// The canonical chunk that field `k` of an alert contributes.
pub open spec fn alert_chunk(a: Alert, k: int) -> Seq<u8> {
    if k == 1 { opt_len(1, a.message@) }
    else if k == 2 { opt_bool(2, a.requires_update) }
    else if k == 3 { opt_len(3, a.min_version@) }
    else if k == 4 { opt_len(4, a.owner_pub_key_bytes@) }
    else if k == 5 { opt_len(5, a.signature_as_base64@) }
    else { Seq::empty() }
}

/// The wire tag that opens field `k` of an alert when present.
pub open spec fn alert_tag(k: int) -> u64 {
    if k == 2 {
        (8 * k) as u64
    } else {
        (8 * k + 2) as u64
    }
}

/// The canonical bytes of an alert from field `k` on.
pub open spec fn alert_fields_from(a: Alert, k: int) -> Seq<u8>
    decreases 6 - k,
{
    if k < 1 || k >= 6 {
        Seq::empty()
    } else {
        alert_chunk(a, k) + alert_fields_from(a, k + 1)
    }
}

/// Any suffix of the canonical alert bytes is empty or opens with the wire
/// tag of a field no earlier than `k`.
pub proof fn lemma_alert_fields_shape(a: Alert, k: int)
    requires
        1 <= k <= 6,
    ensures
        alert_fields_from(a, k).len() == 0 || exists|t: u64, rest: Seq<u8>|
            alert_fields_from(a, k) == #[trigger] (varint_bytes(t) + rest) && 8 * k <= t,
    decreases 6 - k,
{
    if k == 6 {
    } else if alert_chunk(a, k).len() == 0 {
        lemma_alert_fields_shape(a, k + 1);
        assert(alert_fields_from(a, k) =~= alert_fields_from(a, k + 1));
        if alert_fields_from(a, k + 1).len() != 0 {
            let (t, rest) = choose|t: u64, rest: Seq<u8>|
                alert_fields_from(a, k + 1) == #[trigger] (varint_bytes(t) + rest) && 8 * (k + 1)
                    <= t;
            assert(alert_fields_from(a, k) == varint_bytes(t) + rest && 8 * k <= t);
        }
    } else {
        let hb: Seq<u8> = if k == 1 { len_delim(a.message@) }
        else if k == 2 { varint_bytes(1) }
        else if k == 3 { len_delim(a.min_version@) }
        else if k == 4 { len_delim(a.owner_pub_key_bytes@) }
        else { len_delim(a.signature_as_base64@) };
        assert(alert_chunk(a, k) == varint_bytes(alert_tag(k)) + hb);
        lemma_cat_assoc(varint_bytes(alert_tag(k)), hb, alert_fields_from(a, k + 1));
        assert(alert_fields_from(a, k) == varint_bytes(alert_tag(k)) + (hb + alert_fields_from(
            a,
            k + 1,
        )));
        assert(8 * k <= alert_tag(k));
    }
}

/// When field `k` of an alert is absent, the suffix from `k` is the suffix
/// from `k+1`, which opens with a later field's tag if it is not empty.
pub proof fn lemma_alert_field_absent(data: Seq<u8>, i: int, a: Alert, k: int)
    requires
        0 <= i <= data.len(),
        1 <= k < 6,
        data.subrange(i, data.len() as int) == alert_fields_from(a, k),
        alert_chunk(a, k).len() == 0,
    ensures
        data.subrange(i, data.len() as int) == alert_fields_from(a, k + 1),
        data.subrange(i, data.len() as int).len() != 0 ==> exists|t: u64, rest: Seq<u8>|
            data.subrange(i, data.len() as int) == #[trigger] (varint_bytes(t) + rest) && 8 * (k
                + 1) <= t,
{
    assert(alert_fields_from(a, k) =~= alert_fields_from(a, k + 1));
    lemma_alert_fields_shape(a, k + 1);
}

/// When field `k` of an alert is present, the suffix from `k` splits into
/// the field's chunk and the suffix from `k+1`.
pub proof fn lemma_alert_field_present(data: Seq<u8>, i: int, a: Alert, k: int)
    requires
        0 <= i <= data.len(),
        1 <= k < 6,
        data.subrange(i, data.len() as int) == alert_fields_from(a, k),
    ensures
        data.subrange(i, data.len() as int) == alert_chunk(a, k) + alert_fields_from(a, k + 1),
        alert_chunk(a, k).len() <= data.len() - i,
        data.subrange(i + alert_chunk(a, k).len(), data.len() as int) == alert_fields_from(
            a,
            k + 1,
        ),
{
    let c = alert_chunk(a, k);
    let rest = alert_fields_from(a, k + 1);
    assert(data.subrange(i + c.len(), data.len() as int) =~= (c + rest).skip(c.len() as int));
    assert((c + rest).skip(c.len() as int) =~= rest);
}

/// The chunks of all alert fields in order are the canonical alert bytes.
pub proof fn lemma_alert_fields_cat(a: Alert)
    ensures
        alert_fields_from(a, 1) == alert_bytes(a),
{
    assert(alert_fields_from(a, 6) == Seq::<u8>::empty());
    assert(alert_fields_from(a, 5) == alert_chunk(a, 5) + alert_fields_from(a, 6));
    assert(alert_fields_from(a, 4) == alert_chunk(a, 4) + alert_fields_from(a, 5));
    assert(alert_fields_from(a, 3) == alert_chunk(a, 3) + alert_fields_from(a, 4));
    assert(alert_fields_from(a, 2) == alert_chunk(a, 2) + alert_fields_from(a, 3));
    assert(alert_fields_from(a, 1) == alert_chunk(a, 1) + alert_fields_from(a, 2));
    assert(alert_fields_from(a, 1) =~= alert_bytes(a));
}

/// The canonical chunk that field `k` of a trade-statistics record
/// contributes.
pub open spec fn ts_chunk(x: TradeStatistics, k: int) -> Seq<u8> {
    if k == 1 { opt_len(1, x.currency@) }
    else if k == 2 { opt_uint(2, x.trade_price) }
    else if k == 3 { opt_uint(3, x.trade_amount) }
    else if k == 4 { opt_uint(4, x.trade_date) }
    else if k == 5 { opt_len(5, x.signature_pub_key_bytes@) }
    else { Seq::empty() }
}

/// The wire tag that opens field `k` of a trade-statistics record when
/// present.
pub open spec fn ts_tag(k: int) -> u64 {
    if k == 1 || k == 5 {
        (8 * k + 2) as u64
    } else {
        (8 * k) as u64
    }
}

/// The canonical bytes of a trade-statistics record from field `k` on.
pub open spec fn ts_fields_from(x: TradeStatistics, k: int) -> Seq<u8>
    decreases 6 - k,
{
    if k < 1 || k >= 6 {
        Seq::empty()
    } else {
        ts_chunk(x, k) + ts_fields_from(x, k + 1)
    }
}

/// Any suffix of the canonical trade-statistics bytes is empty or opens
/// with the wire tag of a field no earlier than `k`.
pub proof fn lemma_ts_fields_shape(x: TradeStatistics, k: int)
    requires
        1 <= k <= 6,
    ensures
        ts_fields_from(x, k).len() == 0 || exists|t: u64, rest: Seq<u8>|
            ts_fields_from(x, k) == #[trigger] (varint_bytes(t) + rest) && 8 * k <= t,
    decreases 6 - k,
{
    if k == 6 {
    } else if ts_chunk(x, k).len() == 0 {
        lemma_ts_fields_shape(x, k + 1);
        assert(ts_fields_from(x, k) =~= ts_fields_from(x, k + 1));
        if ts_fields_from(x, k + 1).len() != 0 {
            let (t, rest) = choose|t: u64, rest: Seq<u8>|
                ts_fields_from(x, k + 1) == #[trigger] (varint_bytes(t) + rest) && 8 * (k + 1)
                    <= t;
            assert(ts_fields_from(x, k) == varint_bytes(t) + rest && 8 * k <= t);
        }
    } else {
        let hb: Seq<u8> = if k == 1 { len_delim(x.currency@) }
        else if k == 2 { varint_bytes(x.trade_price) }
        else if k == 3 { varint_bytes(x.trade_amount) }
        else if k == 4 { varint_bytes(x.trade_date) }
        else { len_delim(x.signature_pub_key_bytes@) };
        assert(ts_chunk(x, k) == varint_bytes(ts_tag(k)) + hb);
        lemma_cat_assoc(varint_bytes(ts_tag(k)), hb, ts_fields_from(x, k + 1));
        assert(ts_fields_from(x, k) == varint_bytes(ts_tag(k)) + (hb + ts_fields_from(x, k + 1)));
        assert(8 * k <= ts_tag(k));
    }
}

/// When field `k` of a trade-statistics record is absent, the suffix from
/// `k` is the suffix from `k+1`, which opens with a later field's tag if
/// it is not empty.
pub proof fn lemma_ts_field_absent(data: Seq<u8>, i: int, x: TradeStatistics, k: int)
    requires
        0 <= i <= data.len(),
        1 <= k < 6,
        data.subrange(i, data.len() as int) == ts_fields_from(x, k),
        ts_chunk(x, k).len() == 0,
    ensures
        data.subrange(i, data.len() as int) == ts_fields_from(x, k + 1),
        data.subrange(i, data.len() as int).len() != 0 ==> exists|t: u64, rest: Seq<u8>|
            data.subrange(i, data.len() as int) == #[trigger] (varint_bytes(t) + rest) && 8 * (k
                + 1) <= t,
{
    assert(ts_fields_from(x, k) =~= ts_fields_from(x, k + 1));
    lemma_ts_fields_shape(x, k + 1);
}

/// When field `k` of a trade-statistics record is present, the suffix from
/// `k` splits into the field's chunk and the suffix from `k+1`.
pub proof fn lemma_ts_field_present(data: Seq<u8>, i: int, x: TradeStatistics, k: int)
    requires
        0 <= i <= data.len(),
        1 <= k < 6,
        data.subrange(i, data.len() as int) == ts_fields_from(x, k),
    ensures
        data.subrange(i, data.len() as int) == ts_chunk(x, k) + ts_fields_from(x, k + 1),
        ts_chunk(x, k).len() <= data.len() - i,
        data.subrange(i + ts_chunk(x, k).len(), data.len() as int) == ts_fields_from(x, k + 1),
{
    let c = ts_chunk(x, k);
    let rest = ts_fields_from(x, k + 1);
    assert(data.subrange(i + c.len(), data.len() as int) =~= (c + rest).skip(c.len() as int));
    assert((c + rest).skip(c.len() as int) =~= rest);
}

/// The chunks of all trade-statistics fields in order are the canonical
/// trade-statistics bytes.
pub proof fn lemma_ts_fields_cat(x: TradeStatistics)
    ensures
        ts_fields_from(x, 1) == trade_statistics_bytes(x),
{
    assert(ts_fields_from(x, 6) == Seq::<u8>::empty());
    assert(ts_fields_from(x, 5) == ts_chunk(x, 5) + ts_fields_from(x, 6));
    assert(ts_fields_from(x, 4) == ts_chunk(x, 4) + ts_fields_from(x, 5));
    assert(ts_fields_from(x, 3) == ts_chunk(x, 3) + ts_fields_from(x, 4));
    assert(ts_fields_from(x, 2) == ts_chunk(x, 2) + ts_fields_from(x, 3));
    assert(ts_fields_from(x, 1) == ts_chunk(x, 1) + ts_fields_from(x, 2));
    assert(ts_fields_from(x, 1) =~= trade_statistics_bytes(x));
}

} // verus!
