//! Node-address parsing and formatting.

use core::str::FromStr;
use risq::address::AddressParseError;
use risq::payload::NodeAddress;

#[test]
fn format_then_parse_returns_the_address() {
    let addr = NodeAddress {
        host_name: b"ioqwuobl33mfc6ck.onion".to_vec(),
        port: 9999,
    };
    let printed = addr.format();
    assert_eq!(printed, b"ioqwuobl33mfc6ck.onion:9999".to_vec());
    let parsed = NodeAddress::parse(&printed).unwrap();
    assert_eq!(parsed, addr);
}

#[test]
fn format_then_parse_port_zero() {
    let addr = NodeAddress { host_name: b"localhost".to_vec(), port: 0 };
    let parsed = NodeAddress::parse(&addr.format()).unwrap();
    assert_eq!(parsed, addr);
}

#[test]
fn port_out_of_range_is_rejected() {
    assert_eq!(
        NodeAddress::parse(b"host:70000"),
        Err(AddressParseError::InvalidPort)
    );
    assert_eq!(
        NodeAddress::parse(b"host:65536"),
        Err(AddressParseError::InvalidPort)
    );
    assert!(NodeAddress::parse(b"host:65535").is_ok());
}

#[test]
fn missing_port_is_rejected() {
    assert_eq!(NodeAddress::parse(b"host"), Err(AddressParseError::MissingPort));
    assert_eq!(NodeAddress::parse(b""), Err(AddressParseError::MissingPort));
}

#[test]
fn malformed_port_is_rejected() {
    assert_eq!(NodeAddress::parse(b"host:"), Err(AddressParseError::InvalidPort));
    assert_eq!(NodeAddress::parse(b"host:12x"), Err(AddressParseError::InvalidPort));
    assert_eq!(NodeAddress::parse(b"host:1:2"), Err(AddressParseError::InvalidPort));
}

#[test]
fn from_str_maps_errors_to_the_wire_messages() {
    let ok = NodeAddress::from_str("a.onion:1234").unwrap();
    assert_eq!(ok.port, 1234);
    assert_eq!(ok.host_name, b"a.onion".to_vec());
    assert_eq!(
        NodeAddress::from_str("host").unwrap_err(),
        "Couldn't parse node address".to_string()
    );
    assert_eq!(
        NodeAddress::from_str("host:70000").unwrap_err(),
        "Couldn't parse port".to_string()
    );
}
