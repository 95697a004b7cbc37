use tilewave::color::HexColor;

#[test]
fn parses_lowercase_hex() {
    assert_eq!(HexColor::from_hex("#ff00a1"), Some(HexColor(255, 0, 161)));
}

#[test]
fn parses_uppercase_hex() {
    assert_eq!(HexColor::from_hex("#FF00A1"), Some(HexColor(255, 0, 161)));
    assert_eq!(HexColor::from_hex("#0aF102"), Some(HexColor(10, 241, 2)));
}

#[test]
fn rejects_malformed_hex() {
    assert_eq!(HexColor::from_hex(""), None);
    assert_eq!(HexColor::from_hex("fff"), None);
    assert_eq!(HexColor::from_hex("ff00a1"), None);
    assert_eq!(HexColor::from_hex("#ff00a"), None);
    assert_eq!(HexColor::from_hex("#ff00a1b"), None);
    assert_eq!(HexColor::from_hex("#gg0000"), None);
    assert_eq!(HexColor::from_hex("0ff00a1"), None);
}

#[test]
fn renders_lowercase_hex() {
    assert_eq!(HexColor(255, 0, 161).to_hex(), "#ff00a1");
    assert_eq!(HexColor(0, 0, 0).to_hex(), "#000000");
    assert_eq!(HexColor(16, 1, 240).to_hex(), "#1001f0");
}

#[test]
fn hex_round_trip() {
    for v in [0u8, 1, 9, 10, 15, 16, 127, 128, 200, 255] {
        let c = HexColor(v, 255 - v, v ^ 0x5a);
        assert_eq!(HexColor::from_hex(&c.to_hex()), Some(c));
    }
}
