use keylight::address::Ipv4Address;
use keylight::cache::{decode, encode};
use keylight::discovery::{collect, Advertisement, Capability};
use keylight::error::{DiscoveryError, ResolveError};
use keylight::resolver::{Request, Step};
use keylight::target::Target;

/// A cache file and a network, both in memory.
struct World {
    file: Option<String>,
    network: Vec<Advertisement>,
    capability: Capability,
    loads: usize,
    searches: usize,
    saves: usize,
}

fn world(network: Vec<Advertisement>) -> World {
    World { file: None, network, capability: Capability::Available, loads: 0, searches: 0, saves: 0 }
}

fn advert(name: &str, last: u8) -> Advertisement {
    Advertisement {
        name: format!("{}._elg._tcp.local.", name),
        addresses: vec![Ipv4Address(192, 168, 0, last)],
        port: 9123,
    }
}

fn light(name: &str, last: u8) -> Target {
    Target { name: name.to_string(), address: Ipv4Address(192, 168, 0, last), port: 9123 }
}

fn request(addresses: Option<&str>, name_filter: Option<&str>) -> Request {
    Request {
        addresses: addresses.map(|a| a.to_string()),
        name_filter: name_filter.map(|f| f.to_string()),
        timeout_secs: 7,
    }
}

fn resolve(world: &mut World, request: &Request) -> Result<Vec<Target>, ResolveError> {
    let mut step = request.start();
    loop {
        step = match step {
            Step::Done(outcome) => return outcome,
            Step::LoadCache => {
                world.loads += 1;
                let cached = world.file.as_ref().and_then(|text| decode(text));
                request.after_cache(world.capability, cached)
            },
            Step::Discover { timeout_secs } => {
                world.searches += 1;
                request.after_discovery(collect(&world.network, timeout_secs))
            },
            Step::Persist { targets, outcome } => {
                world.saves += 1;
                world.file = Some(encode(&targets));
                return outcome;
            },
        };
    }
}

#[test]
fn explicit_addresses_touch_neither_cache_nor_network() {
    let mut w = world(vec![advert("Desk", 1)]);
    let targets = resolve(&mut w, &request(Some("10.0.0.1"), None)).unwrap();
    assert_eq!(targets, vec![Target { name: "10.0.0.1".to_string(), address: Ipv4Address(10, 0, 0, 1), port: 9123 }]);
    assert_eq!((w.loads, w.searches, w.saves), (0, 0, 0));
    assert_eq!(w.file, None);
}

#[test]
fn a_conflict_touches_neither_cache_nor_network() {
    let mut w = world(vec![advert("Desk", 1)]);
    let outcome = resolve(&mut w, &request(Some("10.0.0.1"), Some("desk")));
    assert!(matches!(outcome, Err(ResolveError::SelectorConflict)));
    assert_eq!((w.loads, w.searches, w.saves), (0, 0, 0));
}

#[test]
fn the_first_run_searches_and_the_second_uses_the_cache() {
    let mut w = world(vec![advert("Desk Right", 2), advert("Closet", 3), advert("Desk Left", 1)]);
    let all = vec![light("Closet", 3), light("Desk Left", 1), light("Desk Right", 2)];
    assert_eq!(resolve(&mut w, &request(None, None)).unwrap(), all);
    assert_eq!((w.loads, w.searches, w.saves), (1, 1, 1));
    assert_eq!(
        w.file.as_deref(),
        Some("192.168.0.3 9123 6 Closet\n192.168.0.1 9123 9 Desk Left\n192.168.0.2 9123 10 Desk Right\n")
    );
    w.network.clear();
    assert_eq!(resolve(&mut w, &request(None, None)).unwrap(), all);
    assert_eq!((w.loads, w.searches, w.saves), (2, 1, 1));
    let desks = resolve(&mut w, &request(None, Some("DESK"))).unwrap();
    assert_eq!(desks, vec![light("Desk Left", 1), light("Desk Right", 2)]);
    assert_eq!((w.loads, w.searches, w.saves), (3, 1, 1));
}

#[test]
fn a_filter_that_matches_nothing_fails_after_the_search_was_stored() {
    let mut w = world(vec![advert("Desk Right", 2), advert("Desk Left", 1)]);
    match resolve(&mut w, &request(None, Some("closet"))) {
        Err(ResolveError::NoMatch(filter)) => assert_eq!(filter, "closet"),
        other => panic!("{:?}", other),
    }
    assert_eq!((w.loads, w.searches, w.saves), (1, 1, 1));
    assert_eq!(
        decode(w.file.as_deref().unwrap()),
        Some(vec![light("Desk Left", 1), light("Desk Right", 2)])
    );
    match resolve(&mut w, &request(None, Some("closet"))) {
        Err(ResolveError::NoMatch(filter)) => assert_eq!(filter, "closet"),
        other => panic!("{:?}", other),
    }
    assert_eq!((w.loads, w.searches, w.saves), (2, 1, 1));
}

#[test]
fn an_empty_network_fails_with_the_timeout_and_stores_nothing() {
    let mut w = world(Vec::new());
    let outcome = resolve(&mut w, &request(None, None));
    assert!(matches!(
        outcome,
        Err(ResolveError::Discovery(DiscoveryError::NoneFound { timeout_secs: 7 }))
    ));
    assert_eq!((w.loads, w.searches, w.saves), (1, 1, 0));
    assert_eq!(w.file, None);
}

#[test]
fn a_damaged_cache_counts_as_none() {
    let mut w = world(vec![advert("Desk", 1)]);
    w.file = Some("192.168.0.9:9123\n".to_string());
    assert_eq!(resolve(&mut w, &request(None, None)).unwrap(), vec![light("Desk", 1)]);
    assert_eq!((w.loads, w.searches, w.saves), (1, 1, 1));
    assert_eq!(w.file.as_deref(), Some("192.168.0.1 9123 4 Desk\n"));
}

#[test]
fn without_discovery_and_without_cache_resolution_fails_fast() {
    let mut w = world(vec![advert("Desk", 1)]);
    w.capability = Capability::Unsupported;
    let outcome = resolve(&mut w, &request(None, None));
    assert!(matches!(outcome, Err(ResolveError::Discovery(DiscoveryError::Unsupported))));
    assert_eq!((w.loads, w.searches, w.saves), (1, 0, 0));
    w.file = Some(encode(&vec![light("Desk", 1)]));
    assert_eq!(resolve(&mut w, &request(None, None)).unwrap(), vec![light("Desk", 1)]);
}
