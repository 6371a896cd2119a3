use wol::mac::{build_magic_packet, parse_mac, wake_packet, MacError};
use wol::config::DeviceConfig;

#[test]
fn parses_mac() {
    let mac = parse_mac("AA:BB:CC:DD:EE:FF").unwrap();
    assert_eq!(mac, [0xAA, 0xBB, 0xCC, 0xDD, 0xEE, 0xFF]);
}

#[test]
fn builds_magic_packet() {
    let mac = [1, 2, 3, 4, 5, 6];
    let packet = build_magic_packet(&mac);
    assert_eq!(&packet[..6], &[0xFF; 6]);
    assert_eq!(&packet[6..12], &mac);
    assert_eq!(&packet[96..102], &mac);
}

#[test]
fn parses_mac_with_dashes_lowercase_or_no_separators() {
    assert_eq!(parse_mac("aa-bb-cc-dd-ee-ff").unwrap(), [0xAA, 0xBB, 0xCC, 0xDD, 0xEE, 0xFF]);
    assert_eq!(parse_mac("0123456789aB").unwrap(), [0x01, 0x23, 0x45, 0x67, 0x89, 0xAB]);
    assert_eq!(parse_mac("01:23-45:67-89:AB").unwrap(), [0x01, 0x23, 0x45, 0x67, 0x89, 0xAB]);
}

#[test]
fn separators_may_stand_anywhere() {
    assert_eq!(parse_mac(":A:A::BBCC-DDEE-FF-").unwrap(), [0xAA, 0xBB, 0xCC, 0xDD, 0xEE, 0xFF]);
}

#[test]
fn plus_sign_reads_as_one_digit() {
    assert_eq!(parse_mac("+A:BB:CC:DD:EE:FF").unwrap(), [0x0A, 0xBB, 0xCC, 0xDD, 0xEE, 0xFF]);
}

#[test]
fn minus_sign_is_a_separator() {
    // `-` is removed before the digits are read, so "-A" contributes one digit.
    assert_eq!(parse_mac("-A:BB:CC:DD:EE:FF"), Err(MacError::InvalidLength));
}

#[test]
fn rejects_wrong_length() {
    assert_eq!(parse_mac("AA:BB:CC:DD:EE"), Err(MacError::InvalidLength));
    assert_eq!(parse_mac("AA:BB:CC:DD:EE:FF:00"), Err(MacError::InvalidLength));
    assert_eq!(parse_mac(""), Err(MacError::InvalidLength));
}

#[test]
fn rejects_non_hex_pair() {
    assert_eq!(
        parse_mac("AA:BB:GG:DD:EE:FF"),
        Err(MacError::InvalidByte { high: b'G', low: b'G' })
    );
    assert_eq!(
        parse_mac("AA:BB:C+:DD:EE:FF"),
        Err(MacError::InvalidByte { high: b'C', low: b'+' })
    );
    assert_eq!(
        parse_mac("AA:BB:++:DD:EE:FF"),
        Err(MacError::InvalidByte { high: b'+', low: b'+' })
    );
}

#[test]
fn reports_first_bad_pair() {
    assert_eq!(
        parse_mac("ZZ:BB:GG:DD:EE:FF"),
        Err(MacError::InvalidByte { high: b'Z', low: b'Z' })
    );
}

#[test]
fn rejects_pair_splitting_a_character() {
    // "é" is two bytes; here it straddles the first and second pair.
    assert_eq!(
        parse_mac("A\u{e9}BBCCDDEEF"),
        Err(MacError::InvalidUtf8 { high: b'A', low: 0xC3 })
    );
    // Here it is a whole pair: valid text, but no number.
    assert_eq!(
        parse_mac("\u{e9}BBCCDDEEFF"),
        Err(MacError::InvalidByte { high: 0xC3, low: 0xA9 })
    );
}

#[test]
fn magic_packet_is_ff_then_sixteen_copies() {
    let mac = [0xAA, 0xBB, 0xCC, 0xDD, 0xEE, 0xFF];
    let packet = build_magic_packet(&mac);
    assert_eq!(packet.len(), 102);
    assert_eq!(&packet[..6], &[0xFF; 6]);
    for k in 0..16 {
        assert_eq!(&packet[6 + 6 * k..12 + 6 * k], &mac);
    }
}

#[test]
fn wake_packet_for_device() {
    let device = DeviceConfig {
        mac: "01:02:03:04:05:06".to_string(),
        host: "255.255.255.255".to_string(),
        port: 9,
    };
    let packet = wake_packet(&device).unwrap();
    assert_eq!(&packet[..6], &[0xFF; 6]);
    assert_eq!(&packet[6..12], &[1, 2, 3, 4, 5, 6]);
    assert_eq!(&packet[96..102], &[1, 2, 3, 4, 5, 6]);

    let bad = DeviceConfig { mac: "nope".to_string(), host: "h".to_string(), port: 9 };
    assert_eq!(wake_packet(&bad), Err(MacError::InvalidLength));
}

#[test]
fn written_address_parses_back_in_any_case() {
    let mac = [0x0A, 0xBC, 0xDE, 0xF0, 0x12, 0x9F];
    let upper = format!(
        "{:02X}:{:02X}:{:02X}:{:02X}:{:02X}:{:02X}",
        mac[0], mac[1], mac[2], mac[3], mac[4], mac[5]
    );
    let lower = format!(
        "{:02x}-{:02x}-{:02x}-{:02x}-{:02x}-{:02x}",
        mac[0], mac[1], mac[2], mac[3], mac[4], mac[5]
    );
    assert_eq!(parse_mac(&upper).unwrap(), mac);
    assert_eq!(parse_mac(&lower).unwrap(), mac);
    assert_eq!(parse_mac("0a-Bc:dE-f0:12-9f").unwrap(), mac);
}
