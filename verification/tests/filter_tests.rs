use keylight::address::Ipv4Address;
use keylight::error::ResolveError;
use keylight::filter::{contains_run, fold_char, matches_name, select};
use keylight::target::Target;
use keylight::text::chars_of;

fn light(name: &str, last: u8) -> Target {
    Target { name: name.to_string(), address: Ipv4Address(192, 168, 0, last), port: 9123 }
}

#[test]
fn filter_ignores_case() {
    assert!(matches_name("Desk Left", "desk"));
    assert!(matches_name("Desk Left", "DESK"));
    assert!(matches_name("desk left", "Desk L"));
    assert!(matches_name("Desk Left", "k l"));
    assert!(matches_name("Desk Left", "Desk Left"));
}

#[test]
fn filter_must_be_a_contiguous_part() {
    assert!(!matches_name("Desk Left", "closet"));
    assert!(!matches_name("Desk Left", "DeskLeft"));
    assert!(!matches_name("Desk Left", "Desk Left "));
    assert!(!matches_name("Desk", "Desk Left"));
    assert!(!matches_name("", "a"));
}

#[test]
fn empty_filter_matches_every_name() {
    assert!(matches_name("Desk Left", ""));
    assert!(matches_name("", ""));
}

#[test]
fn letters_outside_ascii_are_compared_as_they_are() {
    assert!(matches_name("Büro", "büro"));
    assert!(matches_name("Büro", "ü"));
    assert!(!matches_name("Büro", "BÜRO"));
}

#[test]
fn folding_touches_ascii_capitals_only() {
    assert_eq!(fold_char('A'), 'a');
    assert_eq!(fold_char('Z'), 'z');
    assert_eq!(fold_char('a'), 'a');
    assert_eq!(fold_char('@'), '@');
    assert_eq!(fold_char('['), '[');
    assert_eq!(fold_char('5'), '5');
    assert_eq!(fold_char('Ü'), 'Ü');
}

#[test]
fn runs_are_found_at_any_position() {
    let hay = chars_of("abcabd");
    assert!(contains_run(&hay, &chars_of("abd")));
    assert!(contains_run(&hay, &chars_of("abc")));
    assert!(contains_run(&hay, &chars_of("d")));
    assert!(contains_run(&hay, &chars_of("")));
    assert!(!contains_run(&hay, &chars_of("abe")));
    assert!(!contains_run(&hay, &chars_of("abcabda")));
    assert!(!contains_run(&chars_of(""), &chars_of("a")));
    assert!(contains_run(&chars_of(""), &chars_of("")));
}

#[test]
fn filter_without_match_is_an_error_not_an_empty_list() {
    let cached = vec![light("Desk Left", 1), light("Desk Right", 2)];
    match select(&cached, Some("closet")) {
        Err(ResolveError::NoMatch(filter)) => assert_eq!(filter, "closet"),
        other => panic!("{:?}", other),
    }
}

#[test]
fn filter_on_no_candidates_is_no_match() {
    match select(&Vec::new(), Some("desk")) {
        Err(ResolveError::NoMatch(filter)) => assert_eq!(filter, "desk"),
        other => panic!("{:?}", other),
    }
}

#[test]
fn selection_keeps_the_order_of_the_candidates() {
    let cached = vec![
        light("Desk Left", 1),
        light("Closet", 2),
        light("Desk Right", 3),
        light("Standing desk", 4),
    ];
    let chosen = select(&cached, Some("desk")).unwrap();
    assert_eq!(chosen, vec![light("Desk Left", 1), light("Desk Right", 3), light("Standing desk", 4)]);
    let one = select(&cached, Some("RIGHT")).unwrap();
    assert_eq!(one, vec![light("Desk Right", 3)]);
}

#[test]
fn no_filter_selects_everything() {
    let cached = vec![light("Desk Left", 1), light("Closet", 2)];
    assert_eq!(select(&cached, None).unwrap(), cached);
    assert_eq!(select(&Vec::new(), None).unwrap(), Vec::new());
}
