use wol::ParseError;

#[test]
fn test_parse_mac() {
    assert_eq!(
        wol::parse_mac("FF:FF:FF:FF:FF:FF".to_string()),
        Ok(vec![255, 255, 255, 255, 255, 255])
    );
    assert_eq!(
        wol::parse_mac("00:00:00:00:00:00".to_string()),
        Ok(vec![0, 0, 0, 0, 0, 0])
    );
}

#[test]
fn test_create_payload() {
    let payload = wol::create_payload(vec![0x00, 0x01, 0x02, 0x03, 0x04, 0x05]);
    let result = [
        0xff, 0xff, 0xff, 0xff, 0xff, 0xff, 0x00, 0x01, 0x02, 0x03, 0x04, 0x05, 0x00, 0x01, 0x02,
        0x03, 0x04, 0x05, 0x00, 0x01, 0x02, 0x03, 0x04, 0x05, 0x00, 0x01, 0x02, 0x03, 0x04, 0x05,
        0x00, 0x01, 0x02, 0x03, 0x04, 0x05, 0x00, 0x01, 0x02, 0x03, 0x04, 0x05, 0x00, 0x01, 0x02,
        0x03, 0x04, 0x05, 0x00, 0x01, 0x02, 0x03, 0x04, 0x05, 0x00, 0x01, 0x02, 0x03, 0x04, 0x05,
        0x00, 0x01, 0x02, 0x03, 0x04, 0x05, 0x00, 0x01, 0x02, 0x03, 0x04, 0x05, 0x00, 0x01, 0x02,
        0x03, 0x04, 0x05, 0x00, 0x01, 0x02, 0x03, 0x04, 0x05, 0x00, 0x01, 0x02, 0x03, 0x04, 0x05,
        0x00, 0x01, 0x02, 0x03, 0x04, 0x05, 0x00, 0x01, 0x02, 0x03, 0x04, 0x05,
    ];
    assert_eq!(payload.len(), result.len());
    assert!(payload.iter().zip(result.iter()).all(|(a, b)| a == b));
}

#[test]
fn test_parse_mac_lowercase() {
    assert_eq!(
        wol::parse_mac("aa:ff:b0:12:34:56".to_string()),
        Ok(vec![0xAA, 0xFF, 0xB0, 0x12, 0x34, 0x56])
    );
}

#[test]
fn test_parse_mac_single_digit_tokens() {
    assert_eq!(
        wol::parse_mac("0:1:2:3:4:F".to_string()),
        Ok(vec![0, 1, 2, 3, 4, 15])
    );
}

#[test]
fn test_parse_mac_too_few_tokens() {
    assert_eq!(
        wol::parse_mac("AA:BB:CC".to_string()),
        Err(ParseError::Length)
    );
}

#[test]
fn test_parse_mac_too_many_tokens() {
    assert_eq!(
        wol::parse_mac("AA:BB:CC:DD:EE:FF:00".to_string()),
        Err(ParseError::Length)
    );
}

#[test]
fn test_parse_mac_bad_digits() {
    assert_eq!(
        wol::parse_mac("GG:00:00:00:00:00".to_string()),
        Err(ParseError::Number("GG".to_string()))
    );
}

#[test]
fn test_parse_mac_empty_token() {
    assert_eq!(
        wol::parse_mac("AA::BB:CC:DD:EE".to_string()),
        Err(ParseError::Number("".to_string()))
    );
}

#[test]
fn test_parse_mac_token_too_long() {
    assert_eq!(
        wol::parse_mac("100:00:00:00:00:00".to_string()),
        Err(ParseError::Number("100".to_string()))
    );
}

#[test]
fn test_parse_mac_reports_first_bad_token() {
    assert_eq!(
        wol::parse_mac("AA:xy:CC:zz:EE:FF".to_string()),
        Err(ParseError::Number("xy".to_string()))
    );
}

#[test]
fn test_parse_mac_twice_same_result() {
    let first = wol::parse_mac("AA:FF:B0:12:34:56".to_string());
    let second = wol::parse_mac("AA:FF:B0:12:34:56".to_string());
    assert_eq!(first, second);
    assert!(first.is_ok());
}

#[test]
fn test_build_payload_rejects_short_mac() {
    assert_eq!(
        wol::build_payload(vec![0x01, 0x02, 0x03]),
        Err(ParseError::Length)
    );
}

#[test]
fn test_build_payload_rejects_long_mac() {
    assert_eq!(
        wol::build_payload(vec![0x01, 0x02, 0x03, 0x04, 0x05, 0x06, 0x07]),
        Err(ParseError::Length)
    );
}

#[test]
fn test_error_messages() {
    assert_eq!(
        ParseError::Length.message(),
        "illegal MAC address length".to_string()
    );
    assert_eq!(
        ParseError::Number("GG".to_string()).message(),
        "invalid hexadecimal byte: GG".to_string()
    );
}

#[test]
fn test_end_to_end_payload() {
    let mac = wol::parse_mac("AA:FF:B0:12:34:56".to_string()).unwrap();
    assert_eq!(mac, vec![0xAA, 0xFF, 0xB0, 0x12, 0x34, 0x56]);
    let payload = wol::build_payload(mac.clone()).unwrap();
    assert_eq!(payload.len(), 102);
    for i in 0..6 {
        assert_eq!(payload[i], 0xFF);
    }
    for block in 1..17 {
        for i in 0..6 {
            assert_eq!(payload[6 * block + i], mac[i]);
        }
    }
}
