//! Query interface, envelope dispatch, and message-version tests.

use risq::envelope::{AddPersistableNetworkPayloadMessage, Extract, Message, Ping};
use risq::message::CommandResult;
use risq::payload::{
    gen_nonce, AccountAgeWitness, BaseCurrencyNetwork, MessageVersion,
    PersistableNetworkPayload,
};
use risq::store::DataStore;

#[test]
fn ping_answers_pong() {
    assert_eq!(risq::ping(), "pong");
}

#[test]
fn message_version_combines_network_and_protocol() {
    let mainnet: MessageVersion = BaseCurrencyNetwork::BtcMainnet.into();
    assert_eq!(i32::from(mainnet), 10);
    let testnet: MessageVersion = BaseCurrencyNetwork::BtcTestnet.into();
    assert_eq!(i32::from(testnet), 11);
    let regtest: MessageVersion = BaseCurrencyNetwork::BtcRegtest.into();
    assert_eq!(i32::from(regtest), 12);
}

#[test]
fn gen_nonce_returns_an_integer() {
    // nothing is promised of the value; the call must simply work
    let a = gen_nonce();
    let b = gen_nonce();
    let _ = a.wrapping_add(b);
}

#[test]
fn unhandled_envelope_variants_come_back_unchanged() {
    let mut store = DataStore::new();
    match store.handle(Message::Ping(Ping { nonce: 41 })) {
        Extract::Failed(Message::Ping(p)) => assert_eq!(p.nonce, 41),
        _ => panic!("expected the ping back"),
    }
}

#[test]
fn envelope_routes_persistable_adds() {
    let mut store = DataStore::new();
    let msg = Message::AddPersistableNetworkPayloadMessage(AddPersistableNetworkPayloadMessage {
        payload: PersistableNetworkPayload::AccountAgeWitness(AccountAgeWitness {
            hash: vec![9u8; 20],
            date: 1,
        }),
    });
    match store.handle(msg) {
        Extract::Succeeded(CommandResult::Accepted) => {},
        _ => panic!("expected an accepted add"),
    }
    assert_eq!(store.persistable_count(), 1);
}
