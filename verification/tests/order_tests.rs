use keylight::address::Ipv4Address;
use keylight::order::{comes_before, sort_by_name};
use keylight::target::Target;

fn light(name: &str, last: u8) -> Target {
    Target { name: name.to_string(), address: Ipv4Address(192, 168, 0, last), port: 9123 }
}

#[test]
fn dictionary_order_compares_code_points() {
    assert!(comes_before("Desk Left", "Desk Right"));
    assert!(!comes_before("Desk Right", "Desk Left"));
    assert!(!comes_before("Desk", "Desk"));
    assert!(comes_before("", "a"));
    assert!(!comes_before("a", ""));
    assert!(!comes_before("", ""));
    assert!(comes_before("Desk", "Desk Left"));
    assert!(comes_before("Z", "a"));
    assert!(comes_before("z", "ä"));
    assert!(comes_before("10", "9"));
}

#[test]
fn dictionary_order_agrees_with_the_standard_library() {
    let names = ["", "a", "A", "ab", "b", "Desk", "desk", "Büro", "Buro", "日本", "z", "10", "9"];
    for a in names {
        for b in names {
            assert_eq!(comes_before(a, b), a < b, "{:?} {:?}", a, b);
        }
    }
}

#[test]
fn sorting_puts_names_in_ascending_order() {
    let sorted = sort_by_name(&vec![light("Desk Right", 1), light("Closet", 2), light("Desk Left", 3)]);
    assert_eq!(sorted, vec![light("Closet", 2), light("Desk Left", 3), light("Desk Right", 1)]);
}

#[test]
fn sorting_keeps_equal_names_in_their_order() {
    let sorted = sort_by_name(
        &vec![light("b", 1), light("a", 2), light("b", 3), light("a", 4), light("b", 5)],
    );
    assert_eq!(
        sorted,
        vec![light("a", 2), light("a", 4), light("b", 1), light("b", 3), light("b", 5)]
    );
}

#[test]
fn sorting_nothing_gives_nothing() {
    assert_eq!(sort_by_name(&Vec::new()), Vec::new());
    assert_eq!(sort_by_name(&vec![light("x", 1)]), vec![light("x", 1)]);
}

#[test]
fn sorting_a_sorted_list_changes_nothing() {
    let sorted = vec![light("a", 1), light("b", 2), light("c", 3)];
    assert_eq!(sort_by_name(&sorted), sorted);
}
