use keylight::address::Ipv4Address;
use keylight::text::chars_of;

fn parse(text: &str) -> Option<Ipv4Address> {
    let chars = chars_of(text);
    Ipv4Address::parse(&chars, 0, chars.len())
}

#[test]
fn parses_dotted_decimal() {
    assert_eq!(parse("192.168.0.25"), Some(Ipv4Address(192, 168, 0, 25)));
    assert_eq!(parse("0.0.0.0"), Some(Ipv4Address(0, 0, 0, 0)));
    assert_eq!(parse("255.255.255.255"), Some(Ipv4Address(255, 255, 255, 255)));
}

#[test]
fn rejects_malformed_addresses() {
    for text in [
        "", "1", "1.2.3", "1.2.3.4.5", "256.1.1.1", "01.2.3.4", "1.2.3.04", "1..2.3", ".1.2.3",
        "1.2.3.", "a.b.c.d", " 1.2.3.4", "1.2.3.4 ", "+1.2.3.4", "1.2.3.-4", "1,2,3,4",
        "1.2.3.1000", "99999999999999999999999.1.1.1",
    ] {
        assert_eq!(parse(text), None, "{:?}", text);
    }
}

#[test]
fn text_of_an_address_parses_back() {
    for address in [
        Ipv4Address(10, 0, 0, 1),
        Ipv4Address(0, 0, 0, 0),
        Ipv4Address(255, 255, 255, 255),
        Ipv4Address(127, 0, 0, 1),
        Ipv4Address(9, 99, 100, 199),
    ] {
        let text = address.to_text();
        assert_eq!(parse(&text), Some(address));
    }
    assert_eq!(Ipv4Address(192, 168, 0, 25).to_text(), "192.168.0.25");
}

#[test]
fn usable_excludes_loopback_and_unspecified() {
    assert!(Ipv4Address(192, 168, 1, 20).usable());
    assert!(!Ipv4Address(0, 0, 0, 0).usable());
    assert!(!Ipv4Address(127, 0, 0, 1).usable());
    assert!(!Ipv4Address(127, 255, 255, 254).usable());
    assert!(Ipv4Address(0, 0, 0, 1).usable());
    assert!(Ipv4Address(169, 254, 1, 1).usable());
}

#[test]
fn octets_round_trip() {
    let address = Ipv4Address::from_octets([10, 20, 30, 40]);
    assert_eq!(address, Ipv4Address(10, 20, 30, 40));
    assert_eq!(address.octets(), [10, 20, 30, 40]);
}

#[test]
fn text_is_parsed_whole() {
    assert_eq!(Ipv4Address::from_text("192.168.0.25"), Some(Ipv4Address(192, 168, 0, 25)));
    assert_eq!(Ipv4Address::from_text("fe80::1"), None);
    assert_eq!(Ipv4Address::from_text("192.168.0.25 "), None);
    assert_eq!(Ipv4Address::from_text(""), None);
}

#[test]
fn only_canonical_dotted_decimal_is_an_address() {
    for (text, expected) in [
        ("1.2.3.4", Some([1, 2, 3, 4])),
        ("127.0.0.1", Some([127, 0, 0, 1])),
        ("0.0.0.0", Some([0, 0, 0, 0])),
        ("255.255.255.255", Some([255, 255, 255, 255])),
        ("256.0.0.0", None),
        ("0127.0.0.1", None),
        ("00.0.0.0", None),
        ("0.00.0.0", None),
        ("1.2.3.0x4", None),
        ("1.2.3.４", None),
        ("1.2.3.+4", None),
        ("1 .2.3.4", None),
        ("999.1.1.1", None),
    ] {
        assert_eq!(Ipv4Address::from_text(text).map(|a| a.octets()), expected, "{:?}", text);
    }
}
