use mailbox_core::routing_ism::{address_from_decoded, parse_ism_response, CosmosRoutingIsm};
use mailbox_core::types::{ChainCommunicationError, ContractLocator, Message};

fn locator() -> ContractLocator {
    ContractLocator { domain: 4000, address: [0x22; 32], name: String::from("cosmoshub") }
}

fn message() -> Message {
    Message {
        origin: 1,
        sender: [0xaa; 32],
        destination: 2,
        recipient: [0xbb; 32],
        nonce: 3,
        body: vec![0xde, 0xad, 0xbe, 0xef],
    }
}

fn wire_bytes(m: &Message) -> Vec<u8> {
    let mut v = Vec::new();
    v.extend_from_slice(&m.origin.to_be_bytes());
    v.extend_from_slice(&m.sender);
    v.extend_from_slice(&m.destination.to_be_bytes());
    v.extend_from_slice(&m.recipient);
    v.extend_from_slice(&m.nonce.to_be_bytes());
    v.extend_from_slice(&m.body);
    v
}

#[test]
fn routing_ism_identity_comes_from_the_locator() {
    let ism = CosmosRoutingIsm::new(&locator());
    assert_eq!(ism.domain(), 4000);
    assert_eq!(ism.address(), [0x22; 32]);
}

#[test]
fn route_request_wraps_the_hex_encoded_wire_bytes() {
    let ism = CosmosRoutingIsm::new(&locator());
    let m = message();
    let payload = ism.route_request_payload(&m);

    // the payload parses as JSON and carries the lowercase hex of the
    // canonical wire bytes under route.message
    let v: serde_json::Value = serde_json::from_slice(&payload).unwrap();
    let expected_hex = hex::encode(wire_bytes(&m));
    assert_eq!(v["route"]["message"].as_str().unwrap(), expected_hex);

    // and it is the exact compact envelope, byte for byte
    let expected = format!("{{\"route\":{{\"message\":\"{}\"}}}}", expected_hex);
    assert_eq!(payload, expected.into_bytes());
}

#[test]
fn route_request_hex_is_not_the_raw_bytes() {
    let ism = CosmosRoutingIsm::new(&locator());
    let m = message();
    let payload = ism.route_request_payload(&m);
    let wire = wire_bytes(&m);
    // twice as many hex digits as wire bytes, none of them raw
    let v: serde_json::Value = serde_json::from_slice(&payload).unwrap();
    let hex_str = v["route"]["message"].as_str().unwrap();
    assert_eq!(hex_str.len(), 2 * wire.len());
    assert_ne!(hex_str.as_bytes(), wire.as_slice());
}

#[test]
fn ism_response_parses_to_its_address_string() {
    let data = "{\"ism\":\"cosmos1abcdef\"}".as_bytes();
    let ism = parse_ism_response(data).unwrap();
    assert_eq!(ism, b"cosmos1abcdef".to_vec());
}

#[test]
fn ism_response_tolerates_json_whitespace() {
    let data = "{ \"ism\" : \"cosmos1abcdef\" }".as_bytes();
    assert_eq!(parse_ism_response(data).unwrap(), b"cosmos1abcdef".to_vec());
    let data = "\n{\t\"ism\":\n\"cosmos1abcdef\"\r\n}\n".as_bytes();
    assert_eq!(parse_ism_response(data).unwrap(), b"cosmos1abcdef".to_vec());
    // whitespace inside the quoted value is preserved, not stripped
    let data = "{\"ism\":\"a b\"}".as_bytes();
    assert_eq!(parse_ism_response(data).unwrap(), b"a b".to_vec());
}

#[test]
fn route_decodes_a_whitespace_padded_response() {
    let ism = CosmosRoutingIsm::new(&locator());
    let hrp = bech32::Hrp::parse("cosmos").unwrap();
    let addr = bech32::encode::<bech32::Bech32>(hrp, &[0x5d; 20]).unwrap();
    let data = format!("{{ \"ism\" : \"{}\" }}", addr).into_bytes();
    let decoded = ism.route_decode_response(&data).unwrap();
    assert_eq!(&decoded[..12], &[0u8; 12]);
    assert_eq!(&decoded[12..], &[0x5d; 20]);
}

#[test]
fn malformed_responses_are_decode_failures() {
    for bad in [
        &b""[..],
        &b"{}"[..],
        &b"{\"ism\":}"[..],
        &b"{\"other\":\"cosmos1\"}"[..],
        &b"{\"ism\":\"unterminated}"[..],
        &b"{\"ism\":\"with\\\"escape\"}"[..],
    ] {
        assert_eq!(
            parse_ism_response(bad).unwrap_err(),
            ChainCommunicationError::DecodeError
        );
    }
}

#[test]
fn route_decodes_the_bech32_address_out_of_the_response() {
    let ism = CosmosRoutingIsm::new(&locator());
    // a valid bech32 address over known 20-byte data
    let hrp = bech32::Hrp::parse("cosmos").unwrap();
    let addr = bech32::encode::<bech32::Bech32>(hrp, &[0xab; 20]).unwrap();
    let data = format!("{{\"ism\":\"{}\"}}", addr).into_bytes();
    let decoded = ism.route_decode_response(&data).unwrap();
    // left-padded into the canonical 32-byte address
    assert_eq!(&decoded[..12], &[0u8; 12]);
    assert_eq!(&decoded[12..], &[0xab; 20]);
}

#[test]
fn route_rejects_a_bad_checksum() {
    let ism = CosmosRoutingIsm::new(&locator());
    let hrp = bech32::Hrp::parse("cosmos").unwrap();
    let mut addr = bech32::encode::<bech32::Bech32>(hrp, &[0xab; 20]).unwrap();
    // damage the checksum
    let last = addr.pop().unwrap();
    addr.push(if last == 'q' { 'p' } else { 'q' });
    let data = format!("{{\"ism\":\"{}\"}}", addr).into_bytes();
    assert_eq!(
        ism.route_decode_response(&data).unwrap_err(),
        ChainCommunicationError::DecodeError
    );
}

#[test]
fn decoded_addresses_wider_than_32_bytes_do_not_fit() {
    assert_eq!(
        address_from_decoded(&vec![1u8; 33]).unwrap_err(),
        ChainCommunicationError::DecodeError
    );
    let padded = address_from_decoded(&vec![7u8; 2]).unwrap();
    assert_eq!(&padded[..30], &[0u8; 30]);
    assert_eq!(&padded[30..], &[7u8, 7u8]);
}
