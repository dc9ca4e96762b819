use keylight::address::Ipv4Address;
use keylight::discovery::{collect, pick_usable, strip_service_suffix, Advertisement};
use keylight::error::DiscoveryError;
use keylight::target::Target;

fn advert(name: &str, addresses: Vec<Ipv4Address>, port: u16) -> Advertisement {
    Advertisement { name: name.to_string(), addresses, port }
}

fn light(name: &str, address: Ipv4Address, port: u16) -> Target {
    Target { name: name.to_string(), address, port }
}

#[test]
fn no_response_is_none_found_with_the_timeout() {
    assert_eq!(collect(&Vec::new(), 5), Err(DiscoveryError::NoneFound { timeout_secs: 5 }));
    assert_eq!(collect(&Vec::new(), 0), Err(DiscoveryError::NoneFound { timeout_secs: 0 }));
    assert_eq!(
        collect(&Vec::new(), u64::MAX),
        Err(DiscoveryError::NoneFound { timeout_secs: u64::MAX })
    );
}

#[test]
fn only_unusable_responses_is_none_found() {
    let seen = vec![
        advert("A._elg._tcp.local.", vec![], 9123),
        advert("B._elg._tcp.local.", vec![Ipv4Address(127, 0, 0, 1)], 9123),
        advert("C._elg._tcp.local.", vec![Ipv4Address(0, 0, 0, 0)], 9123),
        advert("D._elg._tcp.local.", vec![Ipv4Address(192, 168, 0, 9)], 0),
    ];
    assert_eq!(collect(&seen, 3), Err(DiscoveryError::NoneFound { timeout_secs: 3 }));
}

#[test]
fn found_lights_come_ordered_by_name() {
    let seen = vec![
        advert("Desk Right._elg._tcp.local.", vec![Ipv4Address(192, 168, 0, 3)], 9123),
        advert("Closet._elg._tcp.local.", vec![Ipv4Address(192, 168, 0, 1)], 9124),
        advert("Desk Left._elg._tcp.local.", vec![Ipv4Address(192, 168, 0, 2)], 9123),
    ];
    assert_eq!(
        collect(&seen, 5),
        Ok(vec![
            light("Closet", Ipv4Address(192, 168, 0, 1), 9124),
            light("Desk Left", Ipv4Address(192, 168, 0, 2), 9123),
            light("Desk Right", Ipv4Address(192, 168, 0, 3), 9123),
        ])
    );
}

#[test]
fn the_first_usable_address_is_taken() {
    let seen = vec![advert(
        "Desk._elg._tcp.local.",
        vec![
            Ipv4Address(0, 0, 0, 0),
            Ipv4Address(127, 0, 0, 1),
            Ipv4Address(10, 0, 0, 5),
            Ipv4Address(10, 0, 0, 6),
        ],
        9123,
    )];
    assert_eq!(collect(&seen, 5), Ok(vec![light("Desk", Ipv4Address(10, 0, 0, 5), 9123)]));
    assert_eq!(pick_usable(&vec![]), None);
    assert_eq!(pick_usable(&vec![Ipv4Address(127, 1, 2, 3)]), None);
    assert_eq!(
        pick_usable(&vec![Ipv4Address(127, 1, 2, 3), Ipv4Address(169, 254, 0, 1)]),
        Some(Ipv4Address(169, 254, 0, 1))
    );
}

#[test]
fn unusable_responses_are_left_out() {
    let seen = vec![
        advert("Ghost._elg._tcp.local.", vec![Ipv4Address(127, 0, 0, 1)], 9123),
        advert("Desk._elg._tcp.local.", vec![Ipv4Address(10, 0, 0, 5)], 9123),
    ];
    assert_eq!(collect(&seen, 5), Ok(vec![light("Desk", Ipv4Address(10, 0, 0, 5), 9123)]));
}

#[test]
fn the_service_type_is_cut_off_the_name() {
    assert_eq!(strip_service_suffix("Elgato Key Light 1A2B._elg._tcp.local."), "Elgato Key Light 1A2B");
    assert_eq!(strip_service_suffix("._elg._tcp.local."), "");
    assert_eq!(strip_service_suffix("Desk"), "Desk");
    assert_eq!(strip_service_suffix(""), "");
    assert_eq!(strip_service_suffix("Desk._elg._tcp.local"), "Desk._elg._tcp.local");
    assert_eq!(strip_service_suffix("Desk._hue._tcp.local."), "Desk._hue._tcp.local.");
    assert_eq!(
        strip_service_suffix("a._elg._tcp.local.._elg._tcp.local."),
        "a._elg._tcp.local."
    );
    assert_eq!(strip_service_suffix("Büro._elg._tcp.local."), "Büro");
}

#[test]
fn an_advertisement_is_accepted_with_an_address_and_a_port() {
    let good = advert("Desk._elg._tcp.local.", vec![Ipv4Address(10, 0, 0, 5)], 9123);
    assert_eq!(good.accept(), Some(light("Desk", Ipv4Address(10, 0, 0, 5), 9123)));
    assert_eq!(advert("Desk", vec![], 9123).accept(), None);
    assert_eq!(advert("Desk", vec![Ipv4Address(10, 0, 0, 5)], 0).accept(), None);
}
