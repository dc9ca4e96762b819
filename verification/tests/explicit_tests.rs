use keylight::address::Ipv4Address;
use keylight::error::ResolveError;
use keylight::explicit::resolve_explicit;
use keylight::target::{Target, DEFAULT_PORT};

fn target(name: &str, address: Ipv4Address, port: u16) -> Target {
    Target { name: name.to_string(), address, port }
}

#[test]
fn default_port_is_the_well_known_one() {
    assert_eq!(DEFAULT_PORT, 9123);
}

#[test]
fn explicit_addresses_keep_their_order() {
    let resolved = resolve_explicit("192.168.0.25,10.0.0.7,172.16.5.1").unwrap();
    assert_eq!(
        resolved,
        vec![
            target("192.168.0.25", Ipv4Address(192, 168, 0, 25), 9123),
            target("10.0.0.7", Ipv4Address(10, 0, 0, 7), 9123),
            target("172.16.5.1", Ipv4Address(172, 16, 5, 1), 9123),
        ]
    );
}

#[test]
fn a_single_address_gives_a_single_target() {
    let resolved = resolve_explicit("192.168.0.25").unwrap();
    assert_eq!(resolved, vec![target("192.168.0.25", Ipv4Address(192, 168, 0, 25), 9123)]);
}

#[test]
fn white_space_around_tokens_is_ignored() {
    let resolved = resolve_explicit(" 10.0.0.1 ,\t10.0.0.2\n").unwrap();
    assert_eq!(
        resolved,
        vec![
            target("10.0.0.1", Ipv4Address(10, 0, 0, 1), 9123),
            target("10.0.0.2", Ipv4Address(10, 0, 0, 2), 9123),
        ]
    );
}

#[test]
fn duplicates_and_loopback_are_taken_as_written() {
    let resolved = resolve_explicit("127.0.0.1,127.0.0.1").unwrap();
    assert_eq!(resolved.len(), 2);
    assert_eq!(resolved[0], resolved[1]);
    assert_eq!(resolved[0].address, Ipv4Address(127, 0, 0, 1));
}

fn invalid_token(list: &str) -> String {
    match resolve_explicit(list) {
        Err(ResolveError::InvalidAddress(token)) => token,
        other => panic!("{:?}", other),
    }
}

#[test]
fn one_bad_token_fails_the_whole_list() {
    assert_eq!(invalid_token("10.0.0.1,nonsense,10.0.0.2"), "nonsense");
    assert_eq!(invalid_token("10.0.0.1, 10.0.0.256 "), "10.0.0.256");
    assert_eq!(invalid_token("first,second"), "first");
    assert_eq!(invalid_token("10.0.0.1,010.0.0.2"), "010.0.0.2");
}

#[test]
fn empty_tokens_are_bad_tokens() {
    assert_eq!(invalid_token(""), "");
    assert_eq!(invalid_token("   "), "");
    assert_eq!(invalid_token("10.0.0.1,"), "");
    assert_eq!(invalid_token(",10.0.0.1"), "");
    assert_eq!(invalid_token("10.0.0.1,,10.0.0.2"), "");
}

#[test]
fn explicit_target_is_named_by_its_address() {
    let made = Target::explicit(Ipv4Address(192, 168, 0, 25));
    assert_eq!(made, target("192.168.0.25", Ipv4Address(192, 168, 0, 25), 9123));
}

#[test]
fn a_target_needs_a_port() {
    assert!(Target::new("x".to_string(), Ipv4Address(10, 0, 0, 1), 0).is_none());
    assert_eq!(
        Target::new("x".to_string(), Ipv4Address(10, 0, 0, 1), 80),
        Some(target("x", Ipv4Address(10, 0, 0, 1), 80))
    );
}
