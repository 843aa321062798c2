//! Round-trip tests of the canonical wire codec against the reference
//! payload blob.

use risq::payload::{
    Alert, Arbitrator, Direction, Filter, MailboxStoragePayload, Mediator, NodeAddress,
    OfferPayload, PubKeyRing, RefundAgent, StoragePayload, TempProposalPayload, TradeStatistics,
};

#[test]
fn reserialize_bisq_message() {
    let bisq = StoragePayload::decode(BISQ_HEX).unwrap();
    if let StoragePayload::OfferPayload(_) = &bisq {
        assert!(true)
    } else {
        assert!(false)
    }
    let mut serialized = Vec::with_capacity(bisq.encoded_len());
    bisq.encode(&mut serialized)
        .expect("Could not encode message");
    assert!(&serialized == &BISQ_HEX);
    assert!(StoragePayload::decode(&serialized) == Ok(bisq));
}

#[test]
fn alert_payload_round_trips() {
    let alert = StoragePayload::Alert(Alert {
        message: b"update required".to_vec(),
        requires_update: true,
        min_version: b"1.2.0".to_vec(),
        owner_pub_key_bytes: vec![1, 2, 3, 4],
        signature_as_base64: b"c2ln".to_vec(),
    });
    let mut bytes = Vec::new();
    alert.encode(&mut bytes).unwrap();
    let back = StoragePayload::decode(&bytes).unwrap();
    assert_eq!(back, alert);
    let mut again = Vec::new();
    back.encode(&mut again).unwrap();
    assert_eq!(again, bytes);
}

#[test]
fn fully_populated_offer_round_trips() {
    let addr = |h: &[u8], p: u16| NodeAddress { host_name: h.to_vec(), port: p };
    let offer = StoragePayload::OfferPayload(OfferPayload {
        id: b"offer-1".to_vec(),
        date: 1555340856000,
        owner_node_address: Some(addr(b"maker.onion", 9999)),
        pub_key_ring: Some(PubKeyRing {
            signature_pub_key_bytes: vec![1, 2, 3],
            encryption_pub_key_bytes: vec![4, 5],
        }),
        direction: Direction::Buy,
        price: 5_000_000,
        market_price_margin_bits: 0x3fc999999999999a,
        use_market_based_price: true,
        amount: 1_000_000,
        min_amount: 500_000,
        base_currency_code: b"BTC".to_vec(),
        counter_currency_code: b"EUR".to_vec(),
        arbitrator_node_addresses: vec![addr(b"arb1.onion", 1), addr(b"arb2.onion", 2)],
        mediator_node_addresses: vec![addr(b"med.onion", 3)],
        payment_method_id: b"SEPA".to_vec(),
        maker_payment_account_id: b"acct".to_vec(),
        offer_fee_payment_tx_id: b"txid".to_vec(),
        country_code: b"DE".to_vec(),
        accepted_country_codes: vec![b"DE".to_vec(), b"AT".to_vec()],
        bank_id: b"bank".to_vec(),
        accepted_bank_ids: vec![b"bank".to_vec()],
        version_nr: b"1.1.7".to_vec(),
        block_height_at_offer_creation: 599042,
        tx_fee: 7050,
        maker_fee: 52,
        is_currency_for_maker_fee_btc: true,
        buyer_security_deposit: 400000,
        seller_security_deposit: 300000,
        max_trade_limit: 25000000,
        max_trade_period: 8 * 24 * 3600 * 1000,
        extra_data: vec![
            (b"capabilities".to_vec(), b"0, 1, 2".to_vec()),
            (b"f2fExtraInfo".to_vec(), Vec::new()),
        ],
        protocol_version: 1,
    });
    let mut bytes = Vec::new();
    offer.encode(&mut bytes).unwrap();
    let back = StoragePayload::decode(&bytes).unwrap();
    assert_eq!(back, offer);
    let mut again = Vec::new();
    back.encode(&mut again).unwrap();
    assert_eq!(again, bytes);
}

#[test]
fn remaining_variants_round_trip() {
    let ring = PubKeyRing {
        signature_pub_key_bytes: vec![9, 9, 9],
        encryption_pub_key_bytes: vec![8, 8],
    };
    let samples = vec![
        StoragePayload::Arbitrator(Arbitrator {
            node_address: Some(NodeAddress { host_name: b"arb.onion".to_vec(), port: 5000 }),
            pub_key_ring: Some(ring.clone()),
            registration_date: 77,
        }),
        StoragePayload::Mediator(Mediator {
            node_address: None,
            pub_key_ring: Some(ring.clone()),
            registration_date: 78,
        }),
        StoragePayload::RefundAgent(RefundAgent {
            node_address: Some(NodeAddress { host_name: b"ref.onion".to_vec(), port: 1 }),
            pub_key_ring: None,
            registration_date: 0,
        }),
        StoragePayload::Filter(Filter {
            signature_as_base64: b"sig".to_vec(),
            owner_pub_key_bytes: vec![1],
            banned_offer_ids: vec![b"bad-offer".to_vec()],
        }),
        StoragePayload::TradeStatistics(TradeStatistics {
            currency: b"USD".to_vec(),
            trade_price: 100,
            trade_amount: 200,
            trade_date: 300,
            signature_pub_key_bytes: vec![4, 4],
        }),
        StoragePayload::MailboxStoragePayload(MailboxStoragePayload {
            prefixed_sealed_and_signed: vec![1, 2, 3, 4, 5],
            sender_pub_key_for_add_operation_bytes: vec![6],
            receiver_pub_key_for_remove_operation_bytes: vec![7],
        }),
        StoragePayload::TempProposalPayload(TempProposalPayload {
            proposal: vec![1, 1, 2, 3, 5, 8],
            owner_pub_key_encoded: vec![13],
        }),
    ];
    for payload in samples {
        let mut bytes = Vec::new();
        payload.encode(&mut bytes).unwrap();
        let back = StoragePayload::decode(&bytes).unwrap();
        assert_eq!(back, payload);
        let mut again = Vec::new();
        back.encode(&mut again).unwrap();
        assert_eq!(again, bytes);
    }
}

#[test]
fn content_hash_is_sha256_of_the_wire_bytes() {
    let bisq = StoragePayload::decode(BISQ_HEX).unwrap();
    let expected = openssl::sha::sha256(BISQ_HEX);
    assert_eq!(bisq.bisq_hash().as_bytes(), &expected[..]);
}

#[test]
fn garbage_bytes_are_rejected() {
    assert!(StoragePayload::decode(&[0xff, 0xff, 0xff]).is_err());
    assert!(StoragePayload::decode(&[]).is_err());
    // a non-minimal varint in the tag position
    assert!(StoragePayload::decode(&[0x8a, 0x00]).is_err());
}

const BISQ_HEX: &[u8] = &[
        0x3A, 0x9D, 0x0A, 0x0A, 0x2F, 0x41, 0x4B, 0x52, 0x55, 0x56, 0x43, 0x2D, 0x38, 0x63, 0x38,
        0x30, 0x35, 0x61, 0x34, 0x39, 0x2D, 0x63, 0x31, 0x61, 0x33, 0x2D, 0x34, 0x35, 0x62, 0x34,
        0x2D, 0x39, 0x61, 0x30, 0x64, 0x2D, 0x30, 0x64, 0x36, 0x62, 0x63, 0x32, 0x65, 0x34, 0x63,
        0x32, 0x35, 0x35, 0x2D, 0x31, 0x31, 0x37, 0x10, 0xEF, 0xBF, 0xA9, 0xFC, 0xDB, 0x2D, 0x1A,
        0x1B, 0x0A, 0x16, 0x69, 0x6F, 0x71, 0x77, 0x75, 0x6F, 0x62, 0x6C, 0x33, 0x33, 0x6D, 0x66,
        0x63, 0x36, 0x63, 0x6B, 0x2E, 0x6F, 0x6E, 0x69, 0x6F, 0x6E, 0x10, 0x8F, 0x4E, 0x22, 0xE7,
        0x05, 0x0A, 0xBB, 0x03, 0x30, 0x82, 0x01, 0xB7, 0x30, 0x82, 0x01, 0x2C, 0x06, 0x07, 0x2A,
        0x86, 0x48, 0xCE, 0x38, 0x04, 0x01, 0x30, 0x82, 0x01, 0x1F, 0x02, 0x81, 0x81, 0x00, 0xFD,
        0x7F, 0x53, 0x81, 0x1D, 0x75, 0x12, 0x29, 0x52, 0xDF, 0x4A, 0x9C, 0x2E, 0xEC, 0xE4, 0xE7,
        0xF6, 0x11, 0xB7, 0x52, 0x3C, 0xEF, 0x44, 0x00, 0xC3, 0x1E, 0x3F, 0x80, 0xB6, 0x51, 0x26,
        0x69, 0x45, 0x5D, 0x40, 0x22, 0x51, 0xFB, 0x59, 0x3D, 0x8D, 0x58, 0xFA, 0xBF, 0xC5, 0xF5,
        0xBA, 0x30, 0xF6, 0xCB, 0x9B, 0x55, 0x6C, 0xD7, 0x81, 0x3B, 0x80, 0x1D, 0x34, 0x6F, 0xF2,
        0x66, 0x60, 0xB7, 0x6B, 0x99, 0x50, 0xA5, 0xA4, 0x9F, 0x9F, 0xE8, 0x04, 0x7B, 0x10, 0x22,
        0xC2, 0x4F, 0xBB, 0xA9, 0xD7, 0xFE, 0xB7, 0xC6, 0x1B, 0xF8, 0x3B, 0x57, 0xE7, 0xC6, 0xA8,
        0xA6, 0x15, 0x0F, 0x04, 0xFB, 0x83, 0xF6, 0xD3, 0xC5, 0x1E, 0xC3, 0x02, 0x35, 0x54, 0x13,
        0x5A, 0x16, 0x91, 0x32, 0xF6, 0x75, 0xF3, 0xAE, 0x2B, 0x61, 0xD7, 0x2A, 0xEF, 0xF2, 0x22,
        0x03, 0x19, 0x9D, 0xD1, 0x48, 0x01, 0xC7, 0x02, 0x15, 0x00, 0x97, 0x60, 0x50, 0x8F, 0x15,
        0x23, 0x0B, 0xCC, 0xB2, 0x92, 0xB9, 0x82, 0xA2, 0xEB, 0x84, 0x0B, 0xF0, 0x58, 0x1C, 0xF5,
        0x02, 0x81, 0x81, 0x00, 0xF7, 0xE1, 0xA0, 0x85, 0xD6, 0x9B, 0x3D, 0xDE, 0xCB, 0xBC, 0xAB,
        0x5C, 0x36, 0xB8, 0x57, 0xB9, 0x79, 0x94, 0xAF, 0xBB, 0xFA, 0x3A, 0xEA, 0x82, 0xF9, 0x57,
        0x4C, 0x0B, 0x3D, 0x07, 0x82, 0x67, 0x51, 0x59, 0x57, 0x8E, 0xBA, 0xD4, 0x59, 0x4F, 0xE6,
        0x71, 0x07, 0x10, 0x81, 0x80, 0xB4, 0x49, 0x16, 0x71, 0x23, 0xE8, 0x4C, 0x28, 0x16, 0x13,
        0xB7, 0xCF, 0x09, 0x32, 0x8C, 0xC8, 0xA6, 0xE1, 0x3C, 0x16, 0x7A, 0x8B, 0x54, 0x7C, 0x8D,
        0x28, 0xE0, 0xA3, 0xAE, 0x1E, 0x2B, 0xB3, 0xA6, 0x75, 0x91, 0x6E, 0xA3, 0x7F, 0x0B, 0xFA,
        0x21, 0x35, 0x62, 0xF1, 0xFB, 0x62, 0x7A, 0x01, 0x24, 0x3B, 0xCC, 0xA4, 0xF1, 0xBE, 0xA8,
        0x51, 0x90, 0x89, 0xA8, 0x83, 0xDF, 0xE1, 0x5A, 0xE5, 0x9F, 0x06, 0x92, 0x8B, 0x66, 0x5E,
        0x80, 0x7B, 0x55, 0x25, 0x64, 0x01, 0x4C, 0x3B, 0xFE, 0xCF, 0x49, 0x2A, 0x03, 0x81, 0x84,
        0x00, 0x02, 0x81, 0x80, 0x3B, 0x90, 0xBA, 0xB3, 0xCE, 0x46, 0xFC, 0x5C, 0x5C, 0x71, 0x04,
        0xD7, 0xBF, 0x11, 0xC6, 0x57, 0x70, 0x4A, 0x54, 0x45, 0x8A, 0xD1, 0xBB, 0x43, 0x90, 0x6D,
        0x43, 0x20, 0x71, 0xBB, 0x0E, 0x98, 0xF6, 0xFA, 0xE2, 0x61, 0x09, 0x32, 0xA4, 0xC9, 0x14,
        0xCB, 0x80, 0xEA, 0xCC, 0xE5, 0xBB, 0x90, 0xA3, 0x95, 0x10, 0x13, 0x5C, 0x0A, 0xDB, 0xE2,
        0x0D, 0xD5, 0xF6, 0xB8, 0xF9, 0xBC, 0x22, 0x95, 0x3A, 0x89, 0x4C, 0xA5, 0x65, 0x86, 0xD1,
        0x92, 0xD2, 0x8B, 0x75, 0x14, 0xCD, 0xB8, 0xDA, 0xA2, 0x6E, 0xEC, 0x5B, 0xD2, 0xA8, 0xD6,
        0x77, 0xDE, 0x30, 0xD1, 0x2A, 0xAB, 0xEA, 0xF5, 0x44, 0x7D, 0x17, 0x2F, 0x50, 0x88, 0x0D,
        0xA0, 0xC1, 0xD5, 0x6E, 0xF6, 0x4D, 0x39, 0xD3, 0x0A, 0xD2, 0x71, 0xD1, 0xF2, 0xE1, 0x28,
        0xAF, 0x32, 0x32, 0xC3, 0x45, 0x62, 0x6D, 0x7B, 0x97, 0xE1, 0x34, 0xB0, 0x12, 0xA6, 0x02,
        0x30, 0x82, 0x01, 0x22, 0x30, 0x0D, 0x06, 0x09, 0x2A, 0x86, 0x48, 0x86, 0xF7, 0x0D, 0x01,
        0x01, 0x01, 0x05, 0x00, 0x03, 0x82, 0x01, 0x0F, 0x00, 0x30, 0x82, 0x01, 0x0A, 0x02, 0x82,
        0x01, 0x01, 0x00, 0xA9, 0x8A, 0xE6, 0x0F, 0x6F, 0x97, 0x14, 0x77, 0x05, 0x93, 0xED, 0xA9,
        0x97, 0xB9, 0xC2, 0x2B, 0x5D, 0xA6, 0x7D, 0x31, 0xC3, 0xB7, 0x8F, 0x3B, 0xA4, 0xC3, 0xAF,
        0x86, 0xBF, 0x31, 0xC1, 0x3B, 0xB1, 0xD7, 0x47, 0x7E, 0x5E, 0xC5, 0x3A, 0xDD, 0xA2, 0x6B,
        0xD5, 0xBC, 0x1B, 0x07, 0x37, 0xEA, 0xA3, 0xEE, 0x7D, 0x1C, 0xAA, 0x4F, 0xA8, 0x1D, 0x19,
        0xD3, 0x1F, 0x05, 0xA5, 0x39, 0x6E, 0xA1, 0x46, 0xB7, 0xAA, 0xB7, 0xAF, 0xB5, 0x36, 0x62,
        0x32, 0x0B, 0x88, 0xC7, 0xBC, 0x40, 0xF3, 0x30, 0xA8, 0x13, 0xDF, 0xDE, 0xB9, 0x4E, 0x88,
        0x8C, 0xAF, 0xF6, 0xDD, 0x7E, 0x9A, 0x4A, 0xE4, 0xDD, 0xD4, 0xF4, 0x7A, 0x81, 0xC9, 0x46,
        0xC8, 0x53, 0xC9, 0x92, 0x54, 0x17, 0x90, 0xF0, 0x95, 0xDC, 0x24, 0x86, 0xEC, 0x1C, 0xE7,
        0xB8, 0x6F, 0xF9, 0x7E, 0x06, 0xD2, 0x13, 0x63, 0xE0, 0xCE, 0xC7, 0xD3, 0xE0, 0x85, 0xE4,
        0x12, 0x67, 0x62, 0x08, 0x7E, 0xA9, 0xBB, 0xA8, 0x75, 0x00, 0xEF, 0xF3, 0xC8, 0x34, 0xB9,
        0x4C, 0xF6, 0xCB, 0x6F, 0xC8, 0x6C, 0x64, 0x4D, 0x83, 0x2E, 0xA9, 0xBF, 0xCB, 0xD4, 0x88,
        0x31, 0x54, 0x9C, 0x34, 0xB8, 0xC1, 0xC4, 0x8E, 0xE9, 0xBB, 0x2B, 0x59, 0xF0, 0x89, 0x2D,
        0x1A, 0xF7, 0x8C, 0xB2, 0x2A, 0x20, 0xC5, 0x25, 0x7F, 0x81, 0xDA, 0x7B, 0xEA, 0xF1, 0xAF,
        0x7B, 0x1F, 0x56, 0x6E, 0xCA, 0x8A, 0x52, 0xFF, 0x8C, 0x36, 0x5A, 0xA6, 0x6D, 0xAC, 0x09,
        0xE6, 0x59, 0x26, 0x57, 0x36, 0xB7, 0xBD, 0xB8, 0x33, 0xCB, 0x37, 0x13, 0x47, 0x9A, 0xBB,
        0x42, 0x12, 0x46, 0x21, 0xD1, 0xC2, 0x93, 0x61, 0xC4, 0x69, 0xC2, 0x5A, 0x15, 0x90, 0x42,
        0xC0, 0x79, 0x5A, 0x76, 0x2B, 0x63, 0x75, 0x91, 0x73, 0x25, 0xE6, 0x93, 0xF6, 0xF2, 0xF7,
        0x82, 0xE7, 0x92, 0x33, 0x02, 0x03, 0x01, 0x00, 0x01, 0x28, 0x02, 0x39, 0x0A, 0xD7, 0xA3,
        0x70, 0x3D, 0x0A, 0xC7, 0x3F, 0x40, 0x01, 0x48, 0x80, 0x92, 0xF4, 0x01, 0x50, 0xC0, 0x84,
        0x3D, 0x5A, 0x03, 0x42, 0x54, 0x43, 0x62, 0x03, 0x55, 0x53, 0x44, 0x6A, 0x1B, 0x0A, 0x16,
        0x65, 0x78, 0x69, 0x68, 0x6D, 0x66, 0x7A, 0x61, 0x35, 0x33, 0x34, 0x33, 0x65, 0x68, 0x37,
        0x71, 0x2E, 0x6F, 0x6E, 0x69, 0x6F, 0x6E, 0x10, 0x8F, 0x4E, 0x6A, 0x1B, 0x0A, 0x16, 0x6C,
        0x78, 0x74, 0x61, 0x6B, 0x62, 0x32, 0x69, 0x74, 0x61, 0x76, 0x7A, 0x76, 0x35, 0x77, 0x37,
        0x2E, 0x6F, 0x6E, 0x69, 0x6F, 0x6E, 0x10, 0x8F, 0x4E, 0x72, 0x1B, 0x0A, 0x16, 0x65, 0x78,
        0x69, 0x68, 0x6D, 0x66, 0x7A, 0x61, 0x35, 0x33, 0x34, 0x33, 0x65, 0x68, 0x37, 0x71, 0x2E,
        0x6F, 0x6E, 0x69, 0x6F, 0x6E, 0x10, 0x8F, 0x4E, 0x72, 0x1B, 0x0A, 0x16, 0x6C, 0x78, 0x74,
        0x61, 0x6B, 0x62, 0x32, 0x69, 0x74, 0x61, 0x76, 0x7A, 0x76, 0x35, 0x77, 0x37, 0x2E, 0x6F,
        0x6E, 0x69, 0x6F, 0x6E, 0x10, 0x8F, 0x4E, 0x7A, 0x03, 0x46, 0x32, 0x46, 0x82, 0x01, 0x24,
        0x64, 0x33, 0x37, 0x30, 0x36, 0x61, 0x65, 0x61, 0x2D, 0x37, 0x32, 0x63, 0x34, 0x2D, 0x34,
        0x63, 0x31, 0x31, 0x2D, 0x38, 0x63, 0x30, 0x39, 0x2D, 0x64, 0x30, 0x36, 0x61, 0x34, 0x66,
        0x30, 0x66, 0x32, 0x64, 0x66, 0x61, 0x8A, 0x01, 0x40, 0x38, 0x30, 0x31, 0x66, 0x65, 0x33,
        0x63, 0x66, 0x33, 0x39, 0x34, 0x36, 0x64, 0x39, 0x30, 0x64, 0x32, 0x33, 0x66, 0x37, 0x35,
        0x62, 0x38, 0x66, 0x61, 0x31, 0x33, 0x37, 0x35, 0x39, 0x62, 0x63, 0x33, 0x64, 0x35, 0x61,
        0x35, 0x66, 0x38, 0x61, 0x64, 0x35, 0x33, 0x37, 0x31, 0x38, 0x39, 0x33, 0x63, 0x65, 0x66,
        0x37, 0x36, 0x39, 0x32, 0x66, 0x32, 0x63, 0x63, 0x36, 0x30, 0x34, 0x36, 0x65, 0x92, 0x01,
        0x02, 0x4C, 0x41, 0x9A, 0x01, 0x02, 0x4C, 0x41, 0xB2, 0x01, 0x05, 0x31, 0x2E, 0x31, 0x2E,
        0x37, 0xB8, 0x01, 0x82, 0xC8, 0x24, 0xC0, 0x01, 0x8A, 0x37, 0xC8, 0x01, 0x34, 0xD8, 0x01,
        0x80, 0xB5, 0x18, 0xE0, 0x01, 0xA0, 0xC2, 0x1E, 0xE8, 0x01, 0xC0, 0xF0, 0xF5, 0x0B, 0xF0,
        0x01, 0x80, 0xE0, 0xE5, 0xA4, 0x01, 0xAA, 0x02, 0x2E, 0x0A, 0x0C, 0x63, 0x61, 0x70, 0x61,
        0x62, 0x69, 0x6C, 0x69, 0x74, 0x69, 0x65, 0x73, 0x12, 0x1E, 0x30, 0x2C, 0x20, 0x31, 0x2C,
        0x20, 0x32, 0x2C, 0x20, 0x35, 0x2C, 0x20, 0x36, 0x2C, 0x20, 0x37, 0x2C, 0x20, 0x38, 0x2C,
        0x20, 0x39, 0x2C, 0x20, 0x31, 0x30, 0x2C, 0x20, 0x31, 0x32, 0xAA, 0x02, 0x41, 0x0A, 0x15,
        0x61, 0x63, 0x63, 0x6F, 0x75, 0x6E, 0x74, 0x41, 0x67, 0x65, 0x57, 0x69, 0x74, 0x6E, 0x65,
        0x73, 0x73, 0x48, 0x61, 0x73, 0x68, 0x12, 0x28, 0x63, 0x62, 0x35, 0x64, 0x63, 0x61, 0x64,
        0x37, 0x66, 0x64, 0x64, 0x62, 0x30, 0x32, 0x63, 0x66, 0x37, 0x37, 0x36, 0x36, 0x35, 0x32,
        0x38, 0x30, 0x61, 0x33, 0x64, 0x39, 0x63, 0x37, 0x35, 0x36, 0x66, 0x38, 0x33, 0x63, 0x36,
        0x33, 0x34, 0x63, 0xAA, 0x02, 0x10, 0x0A, 0x0C, 0x66, 0x32, 0x66, 0x45, 0x78, 0x74, 0x72,
        0x61, 0x49, 0x6E, 0x66, 0x6F, 0x12, 0x00, 0xAA, 0x02, 0x18, 0x0A, 0x07, 0x66, 0x32, 0x66,
        0x43, 0x69, 0x74, 0x79, 0x12, 0x0D, 0x4C, 0x55, 0x41, 0x4E, 0x47, 0x20, 0x50, 0x52, 0x41,
        0x42, 0x41, 0x4E, 0x47, 0xB0, 0x02, 0x01,
    ];
